use vstd::prelude::*;

use crate::lcs_table::{lemma_tokens_push, same_token, tokens, walk, walk_next, LcsTable, Step};

verus! {

/// Length of the common prefix of `x` and `y`, counted on from position `k`
/// (which the caller knows to lie inside it).
pub open spec fn prefix_from(x: Seq<Seq<char>>, y: Seq<Seq<char>>, k: int) -> int
    decreases x.len() - k,
{
    if 0 <= k < x.len() && k < y.len() && x[k] == y[k] {
        prefix_from(x, y, k + 1)
    } else {
        k
    }
}

/// Length of the longest common prefix of `x` and `y`.
pub open spec fn prefix_len(x: Seq<Seq<char>>, y: Seq<Seq<char>>) -> int {
    prefix_from(x, y, 0)
}

/// The token `i` places before the end of `x`.
pub open spec fn from_end(x: Seq<Seq<char>>, i: int) -> Seq<char> {
    x[x.len() - 1 - i]
}

/// Length of the common suffix of `x` and `y` that leaves their first `p`
/// tokens alone, counted on from `k`.
pub open spec fn suffix_from(x: Seq<Seq<char>>, y: Seq<Seq<char>>, p: int, k: int) -> int
    decreases x.len() - k,
{
    if 0 <= p && 0 <= k && p + k < x.len() && p + k < y.len() && x[x.len() - 1 - k] == y[y.len()
        - 1 - k] {
        suffix_from(x, y, p, k + 1)
    } else {
        k
    }
}

/// Length of the longest common suffix of `x` and `y` that does not reach
/// into their common prefix.
pub open spec fn suffix_len(x: Seq<Seq<char>>, y: Seq<Seq<char>>) -> int {
    suffix_from(x, y, prefix_len(x, y), 0)
}

/// The shared prefix.
pub open spec fn affix_head<T>(x: Seq<T>, p: int, s: int) -> Seq<T> {
    x.subrange(0, p)
}

/// What lies between the shared prefix and the shared suffix.
pub open spec fn affix_mid<T>(x: Seq<T>, p: int, s: int) -> Seq<T> {
    x.subrange(p, x.len() - s)
}

/// The shared suffix.
pub open spec fn affix_tail<T>(x: Seq<T>, p: int, s: int) -> Seq<T> {
    x.subrange(x.len() - s, x.len() as int)
}

proof fn lemma_prefix_from(x: Seq<Seq<char>>, y: Seq<Seq<char>>, k: int)
    requires
        0 <= k <= x.len(),
        k <= y.len(),
    ensures
        k <= prefix_from(x, y, k) <= x.len(),
        prefix_from(x, y, k) <= y.len(),
        forall|i: int| k <= i < prefix_from(x, y, k) ==> x[i] == y[i],
    decreases x.len() - k,
{
    if k < x.len() && k < y.len() && x[k] == y[k] {
        lemma_prefix_from(x, y, k + 1);
    }
}

proof fn lemma_suffix_from(x: Seq<Seq<char>>, y: Seq<Seq<char>>, p: int, k: int)
    requires
        0 <= p,
        0 <= k,
        p + k <= x.len(),
        p + k <= y.len(),
    ensures
        k <= suffix_from(x, y, p, k),
        p + suffix_from(x, y, p, k) <= x.len(),
        p + suffix_from(x, y, p, k) <= y.len(),
        forall|i: int|
            k <= i < suffix_from(x, y, p, k) ==> #[trigger] from_end(x, i) == from_end(y, i),
    decreases x.len() - k,
{
    if p + k < x.len() && p + k < y.len() && x[x.len() - 1 - k] == y[y.len() - 1 - k] {
        lemma_suffix_from(x, y, p, k + 1);
    }
}

/// The common prefix and the common suffix do not overlap in either sequence.
pub proof fn lemma_affix_bounds(x: Seq<Seq<char>>, y: Seq<Seq<char>>)
    ensures
        0 <= prefix_len(x, y),
        0 <= suffix_len(x, y),
        prefix_len(x, y) + suffix_len(x, y) <= x.len(),
        prefix_len(x, y) + suffix_len(x, y) <= y.len(),
        forall|i: int| 0 <= i < prefix_len(x, y) ==> x[i] == y[i],
        forall|i: int|
            0 <= i < suffix_len(x, y) ==> #[trigger] from_end(x, i) == from_end(y, i),
{
    lemma_prefix_from(x, y, 0);
    lemma_suffix_from(x, y, prefix_len(x, y), 0);
}

/// Trimming the shared prefix and suffix loses nothing: the prefix, either
/// middle part and the suffix, put together again, give back each sequence.
pub proof fn lemma_affixes_rebuild(x: Seq<Seq<char>>, y: Seq<Seq<char>>)
    ensures
        ({
            let p = prefix_len(x, y);
            let s = suffix_len(x, y);
            &&& affix_head(x, p, s) + affix_mid(x, p, s) + affix_tail(x, p, s) == x
            &&& affix_head(x, p, s) + affix_mid(y, p, s) + affix_tail(x, p, s) == y
        }),
{
    lemma_affix_bounds(x, y);
    let p = prefix_len(x, y);
    let s = suffix_len(x, y);
    assert(affix_head(x, p, s) + affix_mid(x, p, s) + affix_tail(x, p, s) =~= x);
    assert(affix_head(x, p, s) + affix_mid(y, p, s) + affix_tail(x, p, s) =~= y) by {
        assert forall|i: int| y.len() - s <= i < y.len() implies y[i] == x[i - y.len() + x.len()] by {
            assert(from_end(x, y.len() - 1 - i) == from_end(y, y.len() - 1 - i));
        }
    }
}

/// The parts that `split_common_parts` returns put together again give back
/// `x` token for token, and, with `y`'s middle part in place of `x`'s, the
/// tokens of `y`.
pub proof fn lemma_split_common_parts_rebuilds(x: Seq<&str>, y: Seq<&str>)
    ensures
        ({
            let p = prefix_len(tokens(x), tokens(y));
            let s = suffix_len(tokens(x), tokens(y));
            &&& affix_head(x, p, s) + affix_mid(x, p, s) + affix_tail(x, p, s) == x
            &&& tokens(affix_head(x, p, s) + affix_mid(y, p, s) + affix_tail(x, p, s)) == tokens(y)
        }),
{
    let tx = tokens(x);
    let ty = tokens(y);
    lemma_affix_bounds(tx, ty);
    lemma_affixes_rebuild(tx, ty);
    let p = prefix_len(tx, ty);
    let s = suffix_len(tx, ty);
    assert(affix_head(x, p, s) + affix_mid(x, p, s) + affix_tail(x, p, s) =~= x);
    assert(tokens(affix_head(x, p, s) + affix_mid(y, p, s) + affix_tail(x, p, s)) =~= affix_head(tx, p, s)
        + affix_mid(ty, p, s) + affix_tail(tx, p, s));
}

/// Splits `x` and `y` into `(head, x_mid, y_mid, tail)`: `head` is their
/// longest common prefix, `tail` their longest common suffix that does not
/// overlap it, and `x_mid`, `y_mid` what lies between in each.
pub fn split_common_parts<'a>(x: &'a [&'a str], y: &'a [&'a str]) -> (r: (
    &'a [&'a str],
    &'a [&'a str],
    &'a [&'a str],
    &'a [&'a str],
))
    ensures
        ({
            let p = prefix_len(tokens(x@), tokens(y@));
            let s = suffix_len(tokens(x@), tokens(y@));
            &&& r.0@ == affix_head(x@, p, s)
            &&& r.1@ == affix_mid(x@, p, s)
            &&& r.2@ == affix_mid(y@, p, s)
            &&& r.3@ == affix_tail(x@, p, s)
        }),
{
    let ghost tx = tokens(x@);
    let ghost ty = tokens(y@);
    let len = if x.len() < y.len() {
        x.len()
    } else {
        y.len()
    };
    // `start` is the position where `x` and `y` start to differ
    let mut start: usize = 0;
    while start < len && same_token(x[start], y[start])
        invariant
            start <= len,
            len <= x@.len(),
            len <= y@.len(),
            len == x@.len() || len == y@.len(),
            tx == tokens(x@),
            ty == tokens(y@),
            prefix_from(tx, ty, start as int) == prefix_len(tx, ty),
            forall|i: int| 0 <= i < start ==> tx[i] == ty[i],
        decreases len - start,
    {
        proof {
            assert(tx[start as int] == x@[start as int]@);
            assert(ty[start as int] == y@[start as int]@);
        }
        start = start + 1;
    }
    proof {
        if start < len {
            assert(tx[start as int] == x@[start as int]@);
            assert(ty[start as int] == y@[start as int]@);
        }
    }
    // `k` counts the tokens of the common suffix found so far
    let mut k: usize = 0;
    while k < x.len() - start && k < y.len() - start && same_token(
        x[x.len() - 1 - k],
        y[y.len() - 1 - k],
    )
        invariant
            start as int == prefix_len(tx, ty),
            start + k <= x@.len(),
            start + k <= y@.len(),
            tx == tokens(x@),
            ty == tokens(y@),
            suffix_from(tx, ty, start as int, k as int) == suffix_len(tx, ty),
        decreases x@.len() - k,
    {
        proof {
            assert(tx[x@.len() - 1 - k] == x@[x@.len() - 1 - k]@);
            assert(ty[y@.len() - 1 - k] == y@[y@.len() - 1 - k]@);
        }
        k = k + 1;
    }
    proof {
        if k < x.len() - start && k < y.len() - start {
            assert(tx[x@.len() - 1 - k] == x@[x@.len() - 1 - k]@);
            assert(ty[y@.len() - 1 - k] == y@[y@.len() - 1 - k]@);
        }
    }
    let end_x = x.len() - k;
    let end_y = y.len() - k;
    (&x[0..start], &x[start..end_x], &y[start..end_y], &x[end_x..x.len()])
}

/// Number of moves of an alignment that skip a token.
pub open spec fn edits(w: Seq<(Step, Seq<char>)>) -> nat
    decreases w.len(),
{
    if w.len() == 0 {
        0
    } else {
        (if w[0].0 == Step::Both {
            0nat
        } else {
            1nat
        }) + edits(w.subrange(1, w.len() as int))
    }
}

/// The tokens that an alignment keeps, in order.
pub open spec fn shared(w: Seq<(Step, Seq<char>)>) -> Seq<Seq<char>>
    decreases w.len(),
{
    if w.len() == 0 {
        Seq::empty()
    } else {
        (if w[0].0 == Step::Both {
            seq![w[0].1]
        } else {
            Seq::empty()
        }) + shared(w.subrange(1, w.len() as int))
    }
}

/// The alignment reported for `x` and `y`: the table walk over what lies
/// between their common prefix and suffix.
pub open spec fn alignment(x: Seq<Seq<char>>, y: Seq<Seq<char>>) -> Seq<(Step, Seq<char>)> {
    let p = prefix_len(x, y);
    let s = suffix_len(x, y);
    walk(affix_mid(x, p, s), affix_mid(y, p, s), 0, 0)
}

/// The edit distance of `x` and `y`: the tokens that the alignment skips.
pub open spec fn distance(x: Seq<Seq<char>>, y: Seq<Seq<char>>) -> nat {
    edits(alignment(x, y))
}

/// The merged tokens: the common prefix, the tokens the alignment keeps, and
/// the common suffix.
pub open spec fn merged(x: Seq<Seq<char>>, y: Seq<Seq<char>>) -> Seq<Seq<char>> {
    let p = prefix_len(x, y);
    let s = suffix_len(x, y);
    affix_head(x, p, s) + shared(alignment(x, y)) + affix_tail(x, p, s)
}

/// The tokens of `parts` with `d` between each two of them.
pub open spec fn joined(parts: Seq<Seq<char>>, d: Seq<char>) -> Seq<char>
    decreases parts.len(),
{
    if parts.len() == 0 {
        Seq::empty()
    } else if parts.len() == 1 {
        parts[0]
    } else {
        joined(parts.drop_last(), d) + d + parts.last()
    }
}

/// What `str::split` yields for a string and a delimiter, as characters.
pub uninterp spec fn split_parts(s: Seq<char>, d: Seq<char>) -> Seq<Seq<char>>;

/// Relies on `str::split`, collected into a `Vec`: the pieces of `s` between
/// the matches of `d`, which put together again with `d` between them give `s`.
#[verifier::external_body]
fn split_tokens<'a>(s: &'a str, d: &str) -> (r: Vec<&'a str>)
    ensures
        tokens(r@) == split_parts(s@, d@),
        joined(tokens(r@), d@) == s@,
{
    s.split(d).collect()
}

proof fn lemma_edits_shared_append(a: Seq<(Step, Seq<char>)>, b: Seq<(Step, Seq<char>)>)
    ensures
        edits(a + b) == edits(a) + edits(b),
        shared(a + b) == shared(a) + shared(b),
    decreases a.len(),
{
    if a.len() == 0 {
        assert(a + b =~= b);
        assert(shared(a) + shared(b) =~= shared(b));
    } else {
        lemma_edits_shared_append(a.subrange(1, a.len() as int), b);
        assert((a + b).subrange(1, (a + b).len() as int) =~= a.subrange(1, a.len() as int) + b);
        assert((a + b)[0] == a[0]);
        let head: Seq<Seq<char>> = if a[0].0 == Step::Both {
            seq![a[0].1]
        } else {
            Seq::empty()
        };
        assert(head + (shared(a.subrange(1, a.len() as int)) + shared(b)) =~= (head + shared(
            a.subrange(1, a.len() as int),
        )) + shared(b));
    }
}

proof fn lemma_edits_shared_len(w: Seq<(Step, Seq<char>)>)
    ensures
        edits(w) + shared(w).len() == w.len(),
    decreases w.len(),
{
    if w.len() > 0 {
        lemma_edits_shared_len(w.subrange(1, w.len() as int));
    }
}

/// Along the walk from `(i, j)`, every move consumes a token of `x`, one of
/// `y`, or one of each when it keeps it.
proof fn lemma_walk_counts(x: Seq<Seq<char>>, y: Seq<Seq<char>>, i: int, j: int)
    requires
        0 <= i <= x.len(),
        0 <= j <= y.len(),
    ensures
        edits(walk(x, y, i, j)) + 2 * shared(walk(x, y, i, j)).len() == (x.len() - i) + (y.len() - j),
        shared(walk(x, y, i, j)).len() <= x.len() - i,
        shared(walk(x, y, i, j)).len() <= y.len() - j,
        walk(x, y, i, j).len() <= (x.len() - i) + (y.len() - j),
    decreases x.len() - i + y.len() - j,
{
    let w = walk(x, y, i, j);
    if !(i == x.len() && j == y.len()) {
        let next = walk_next(x, y, i, j);
        lemma_walk_counts(x, y, next.0, next.1);
        assert(w.subrange(1, w.len() as int) =~= walk(x, y, next.0, next.1));
    }
    lemma_edits_shared_len(w);
}

/// The distance is at least the difference of the two token counts and at
/// most their sum.
pub proof fn lemma_distance_bounds(x: Seq<Seq<char>>, y: Seq<Seq<char>>)
    ensures
        x.len() - y.len() <= distance(x, y),
        y.len() - x.len() <= distance(x, y),
        distance(x, y) <= x.len() + y.len(),
{
    lemma_affix_bounds(x, y);
    let p = prefix_len(x, y);
    let s = suffix_len(x, y);
    lemma_walk_counts(affix_mid(x, p, s), affix_mid(y, p, s), 0, 0);
}

proof fn lemma_prefix_of_self(x: Seq<Seq<char>>, k: int)
    requires
        0 <= k <= x.len(),
    ensures
        prefix_from(x, x, k) == x.len(),
    decreases x.len() - k,
{
    if k < x.len() {
        lemma_prefix_of_self(x, k + 1);
    }
}

/// Identical token sequences are at distance zero, and merging them gives
/// them back unchanged.
pub proof fn lemma_identical_inputs(x: Seq<Seq<char>>)
    ensures
        distance(x, x) == 0,
        merged(x, x) == x,
{
    lemma_prefix_of_self(x, 0);
    let p = prefix_len(x, x);
    assert(affix_mid(x, p, 0) =~= Seq::<Seq<char>>::empty());
    assert(affix_head(x, p, 0) =~= x);
    assert(affix_tail(x, p, 0) =~= Seq::<Seq<char>>::empty());
    assert(x + Seq::<Seq<char>>::empty() + Seq::<Seq<char>>::empty() =~= x);
}

/// The tokens of `parts` with `sep` between each two of them.
pub fn join(parts: &Vec<&str>, sep: &str) -> (r: String)
    ensures
        r@ == joined(tokens(parts@), sep@),
{
    let mut out = String::new();
    let mut i: usize = 0;
    while i < parts.len()
        invariant
            i <= parts@.len(),
            out@ == joined(tokens(parts@).subrange(0, i as int), sep@),
        decreases parts@.len() - i,
    {
        let ghost before = tokens(parts@).subrange(0, i as int);
        let ghost after = tokens(parts@).subrange(0, i + 1);
        assert(after.drop_last() =~= before);
        if i > 0 {
            out.append(sep);
        } else {
            assert(after =~= seq![parts@[0]@]);
        }
        out.append(parts[i]);
        i = i + 1;
    }
    assert(tokens(parts@).subrange(0, parts@.len() as int) =~= tokens(parts@));
    out
}

/// Splits `orig` and `edit` at `split` and compares the two token
/// sequences: returns how many tokens the alignment skips, and the tokens it
/// keeps joined again with `split`.
pub fn lcs(orig: &str, edit: &str, split: &str) -> (r: (usize, String))
    requires
        split_parts(orig@, split@).len() + split_parts(edit@, split@).len() <= usize::MAX,
    ensures
        r.0 == distance(split_parts(orig@, split@), split_parts(edit@, split@)),
        r.1@ == joined(merged(split_parts(orig@, split@), split_parts(edit@, split@)), split@),
        orig@ == edit@ ==> r.0 == 0 && r.1@ == orig@,
        split_parts(orig@, split@).len() - split_parts(edit@, split@).len() <= r.0,
        split_parts(edit@, split@).len() - split_parts(orig@, split@).len() <= r.0,
        r.0 <= split_parts(orig@, split@).len() + split_parts(edit@, split@).len(),
{
    // make list by custom splits
    let x = split_tokens(orig, split);
    let y = split_tokens(edit, split);
    let ghost tx = tokens(x@);
    let ghost ty = tokens(y@);
    let (head, x_trunc, y_trunc, tail) = split_common_parts(x.as_slice(), y.as_slice());
    let ghost p = prefix_len(tx, ty);
    let ghost s = suffix_len(tx, ty);
    proof {
        lemma_affix_bounds(tx, ty);
        assert(tokens(x_trunc@) =~= affix_mid(tx, p, s));
        assert(tokens(y_trunc@) =~= affix_mid(ty, p, s));
        assert(tokens(head@) =~= affix_head(tx, p, s));
        assert(tokens(tail@) =~= affix_tail(tx, p, s));
        lemma_walk_counts(affix_mid(tx, p, s), affix_mid(ty, p, s), 0, 0);
    }
    let table = LcsTable::from(x_trunc, y_trunc);

    let mut chunks: Vec<&str> = Vec::new();
    let mut h: usize = 0;
    while h < head.len()
        invariant
            h <= head@.len(),
            tokens(chunks@) == tokens(head@).subrange(0, h as int),
        decreases head@.len() - h,
    {
        proof {
            lemma_tokens_push(chunks@, head@[h as int]);
            assert(tokens(head@).subrange(0, h + 1) =~= tokens(head@).subrange(0, h as int).push(
                head@[h as int]@,
            ));
        }
        chunks.push(head[h]);
        h = h + 1;
    }

    let mut dist: usize = 0;
    let mut it = table.iter();
    let ghost w = it.remaining();
    let ghost mut done: Seq<(Step, Seq<char>)> = Seq::empty();
    loop
        invariant
            it.wf(),
            w == alignment(tx, ty),
            w == done + it.remaining(),
            w.len() <= usize::MAX,
            dist == edits(done),
            tokens(chunks@) == tokens(head@) + shared(done),
        ensures
            w == done,
        decreases it.remaining().len(),
    {
        let ghost before = it.remaining();
        match it.next() {
            None => {
                assert(done + before =~= done);
                break;
            },
            Some(item) => {
                let ghost e = (item.0, item.1@);
                proof {
                    lemma_edits_shared_append(done, seq![e]);
                    lemma_edits_shared_len(done + seq![e]);
                    assert(w =~= (done + seq![e]) + it.remaining());
                    let one = seq![e];
                    assert(one.subrange(1, 1) =~= Seq::<(Step, Seq<char>)>::empty());
                    assert(shared(Seq::<(Step, Seq<char>)>::empty()) == Seq::<Seq<char>>::empty());
                    assert(edits(Seq::<(Step, Seq<char>)>::empty()) == 0);
                    if e.0 == Step::Both {
                        assert(shared(one) =~= seq![e.1]);
                        assert(edits(one) == 0);
                    } else {
                        assert(shared(one) =~= Seq::<Seq<char>>::empty());
                        assert(edits(one) == 1);
                    }
                    lemma_tokens_push(chunks@, item.1);
                }
                if item.0 == Step::Both {
                    chunks.push(item.1);
                } else {
                    dist = dist + 1;
                }
                proof {
                    done = done + seq![e];
                }
            },
        }
    }

    let mut t: usize = 0;
    while t < tail.len()
        invariant
            t <= tail@.len(),
            tokens(chunks@) == tokens(head@) + shared(w) + tokens(tail@).subrange(0, t as int),
        decreases tail@.len() - t,
    {
        proof {
            lemma_tokens_push(chunks@, tail@[t as int]);
            assert(tokens(tail@).subrange(0, t + 1) =~= tokens(tail@).subrange(0, t as int).push(
                tail@[t as int]@,
            ));
        }
        chunks.push(tail[t]);
        t = t + 1;
    }
    assert(tokens(chunks@) =~= merged(tx, ty));
    let joined_chunks = join(&chunks, split);
    proof {
        lemma_distance_bounds(tx, ty);
        if orig@ == edit@ {
            lemma_identical_inputs(tx);
        }
    }
    (dist, joined_chunks)
}

/// `lcs` on every input: `None` exactly when the two token counts together
/// do not fit in a `usize`.
pub fn try_lcs(orig: &str, edit: &str, split: &str) -> (r: Option<(usize, String)>)
    ensures
        r is None <==> split_parts(orig@, split@).len() + split_parts(edit@, split@).len() > usize::MAX,
        r is Some ==> r->Some_0.0 == distance(split_parts(orig@, split@), split_parts(edit@, split@)),
        r is Some ==> r->Some_0.1@ == joined(merged(split_parts(orig@, split@), split_parts(edit@, split@)), split@),
{
    let x = split_tokens(orig, split);
    let y = split_tokens(edit, split);
    if x.len() > usize::MAX - y.len() {
        None
    } else {
        Some(lcs(orig, edit, split))
    }
}

} // verus!
