//! Splitting a sequence at a separator, and joining the pieces again.

use vstd::prelude::*;

verus! {

/// How many items stand before the first `sep` in `s`: all of them when `s` holds no `sep`.
pub open spec fn run_len<T>(s: Seq<T>, sep: T) -> nat
    decreases s.len(),
{
    if s.len() == 0 || s[0] == sep {
        0
    } else {
        1 + run_len(s.drop_first(), sep)
    }
}

/// The pieces of `s` between its separators, in order. There is always at least one
/// piece, and a piece is empty where two separators meet or one stands at an end.
pub open spec fn split<T>(s: Seq<T>, sep: T) -> Seq<Seq<T>>
    decreases s.len(),
{
    let n = run_len(s, sep);
    if n >= s.len() {
        seq![s]
    } else {
        seq![s.take(n as int)] + split(s.skip(n as int + 1), sep)
    }
}

/// The pieces put together again with `sep` between neighbours.
pub open spec fn join<T>(parts: Seq<Seq<T>>, sep: T) -> Seq<T>
    decreases parts.len(),
{
    if parts.len() == 0 {
        Seq::empty()
    } else if parts.len() == 1 {
        parts[0]
    } else {
        parts[0] + seq![sep] + join(parts.drop_first(), sep)
    }
}

/// `run_len` never runs past the end, and where it stops short a separator stands.
pub proof fn lemma_run_len_bounds<T>(s: Seq<T>, sep: T)
    ensures
        run_len(s, sep) <= s.len(),
        run_len(s, sep) < s.len() ==> s[run_len(s, sep) as int] == sep,
        forall|k: int| 0 <= k < run_len(s, sep) ==> s[k] != sep,
    decreases s.len(),
{
    if s.len() == 0 || s[0] == sep {
    } else {
        lemma_run_len_bounds(s.drop_first(), sep);
        assert forall|k: int| 0 <= k < run_len(s, sep) implies s[k] != sep by {
            if k > 0 {
                assert(s[k] == s.drop_first()[k - 1]);
            }
        }
    }
}

/// A stretch without separator counts in full.
pub proof fn lemma_run_len_prefix<T>(s: Seq<T>, sep: T, k: int)
    requires
        0 <= k <= s.len(),
        forall|j: int| 0 <= j < k ==> s[j] != sep,
        k < s.len() ==> s[k] == sep,
    ensures
        run_len(s, sep) == k,
    decreases k,
{
    if k == 0 {
    } else {
        let t = s.drop_first();
        assert forall|j: int| 0 <= j < k - 1 implies t[j] != sep by {
            assert(t[j] == s[j + 1]);
        }
        lemma_run_len_prefix(t, sep, k - 1);
    }
}

/// A stretch without separator in front adds its length to the count.
pub proof fn lemma_run_len_skip_prefix<T>(prefix: Seq<T>, s: Seq<T>, sep: T)
    requires
        forall|k: int| 0 <= k < prefix.len() ==> prefix[k] != sep,
    ensures
        run_len(prefix + s, sep) == prefix.len() + run_len(s, sep),
    decreases prefix.len(),
{
    if prefix.len() == 0 {
        assert(prefix + s =~= s);
    } else {
        assert((prefix + s).drop_first() =~= prefix.drop_first() + s);
        lemma_run_len_skip_prefix(prefix.drop_first(), s, sep);
    }
}

/// `split` gives at least one piece.
pub proof fn lemma_split_nonempty<T>(s: Seq<T>, sep: T)
    ensures
        split(s, sep).len() >= 1,
    decreases s.len(),
{
    let n = run_len(s, sep);
    if n < s.len() {
        lemma_split_nonempty(s.skip(n as int + 1), sep);
    }
}

/// No piece that `split` gives holds a separator.
pub proof fn lemma_split_pieces<T>(s: Seq<T>, sep: T)
    ensures
        forall|i: int, k: int|
            0 <= i < split(s, sep).len() && 0 <= k < split(s, sep)[i].len() ==> (#[trigger] split(
                s,
                sep,
            )[i][k]) != sep,
    decreases s.len(),
{
    let n = run_len(s, sep);
    let parts = split(s, sep);
    lemma_run_len_bounds(s, sep);
    if n < s.len() {
        let rest = s.skip(n as int + 1);
        lemma_split_pieces(rest, sep);
        assert forall|i: int, k: int| 0 <= i < parts.len() && 0 <= k < parts[i].len() implies (
        #[trigger] parts[i][k]) != sep by {
            if i == 0 {
                assert(parts[0][k] == s[k]);
            } else {
                assert(parts[i] == split(rest, sep)[i - 1]);
            }
        }
    }
}

/// Joining what `split` gave restores the sequence.
pub proof fn lemma_join_split<T>(s: Seq<T>, sep: T)
    ensures
        join(split(s, sep), sep) == s,
    decreases s.len(),
{
    let n = run_len(s, sep);
    lemma_run_len_bounds(s, sep);
    if n < s.len() {
        let rest = s.skip(n as int + 1);
        let parts = split(s, sep);
        lemma_split_nonempty(rest, sep);
        lemma_join_split(rest, sep);
        assert(parts.drop_first() =~= split(rest, sep));
        assert(s.take(n as int) + seq![sep] + rest =~= s);
    }
}

/// What `join` makes of one more part at the end.
pub proof fn lemma_join_push<T>(parts: Seq<Seq<T>>, last: Seq<T>, sep: T)
    ensures
        join(parts.push(last), sep) == if parts.len() == 0 {
            last
        } else {
            join(parts, sep) + seq![sep] + last
        },
    decreases parts.len(),
{
    let all = parts.push(last);
    if parts.len() == 0 {
    } else {
        assert(all.drop_first() =~= parts.drop_first().push(last));
        lemma_join_push(parts.drop_first(), last, sep);
        if parts.len() == 1 {
            assert(join(parts.drop_first(), sep) =~= Seq::<T>::empty());
        } else {
            assert(join(all, sep) =~= join(parts, sep) + seq![sep] + last);
        }
    }
}

/// A joined sequence opens with its first part, and goes on with a separator
/// where there are more parts.
pub proof fn lemma_join_front<T>(parts: Seq<Seq<T>>, sep: T)
    requires
        parts.len() >= 1,
    ensures
        join(parts, sep).len() >= parts[0].len(),
        forall|k: int| 0 <= k < parts[0].len() ==> join(parts, sep)[k] == parts[0][k],
        parts.len() == 1 ==> join(parts, sep) == parts[0],
        parts.len() >= 2 ==> join(parts, sep).len() > parts[0].len() && join(
            parts,
            sep,
        )[parts[0].len() as int] == sep && join(parts, sep).skip(parts[0].len() as int + 1) == join(
            parts.drop_first(),
            sep,
        ),
{
    if parts.len() >= 2 {
        let whole = parts[0] + seq![sep] + join(parts.drop_first(), sep);
        assert(whole.skip(parts[0].len() as int + 1) =~= join(parts.drop_first(), sep));
    }
}

} // verus!
