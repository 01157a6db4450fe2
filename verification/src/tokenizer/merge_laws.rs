//! What byte-level BPE is: which pair is joined, when joining ends, and which
//! ids come out.
use crate::tokenizer::bpe;
use crate::tokenizer::bpe::VocabularyView;
use vstd::prelude::*;
use vstd::utf8::*;

verus! {

/// The merge of the symbols at `i` and `i + 1`, as a merge list writes it.
pub open spec fn merge_line(s: Seq<Seq<char>>, i: int) -> Seq<char> {
    s[i] + seq![' '] + s[i + 1]
}

/// Whether the symbols at `i` and `i + 1` may be joined.
pub open spec fn joinable(ranks: Map<Seq<char>, usize>, s: Seq<Seq<char>>, i: int) -> bool {
    0 <= i < s.len() - 1 && ranks.contains_key(merge_line(s, i))
}

/// Whether the pair at `p` is the one to join: no pair has a lower rank, and no
/// pair to the left of it has the same.
pub open spec fn goes_first(ranks: Map<Seq<char>, usize>, s: Seq<Seq<char>>, p: int) -> bool {
    &&& joinable(ranks, s, p)
    &&& forall|i: int| #[trigger]
        joinable(ranks, s, i) ==> ranks[merge_line(s, p)] <= ranks[merge_line(s, i)]
    &&& forall|i: int| #[trigger]
        joinable(ranks, s, i) && i < p ==> ranks[merge_line(s, p)] < ranks[merge_line(s, i)]
}

/// Whether `b` is `a` with the symbols at `p` and `p + 1` made one.
pub open spec fn joined_at(a: Seq<Seq<char>>, b: Seq<Seq<char>>, p: int) -> bool {
    &&& 0 <= p < a.len() - 1
    &&& b.len() == a.len() - 1
    &&& b[p] == a[p] + a[p + 1]
    &&& forall|i: int| 0 <= i < p ==> #[trigger] b[i] == a[i]
    &&& forall|i: int| p < i < b.len() ==> #[trigger] b[i] == a[i + 1]
}

/// Whether `b` comes from `a` by joining the pair that goes first.
pub open spec fn one_join(
    ranks: Map<Seq<char>, usize>,
    a: Seq<Seq<char>>,
    b: Seq<Seq<char>>,
) -> bool {
    exists|p: int| goes_first(ranks, a, p) && #[trigger] joined_at(a, b, p)
}

/// Whether each list of symbols but the first comes from the one before it by
/// joining the pair that goes first, and the last has no pair left to join.
pub open spec fn is_run(ranks: Map<Seq<char>, usize>, run: Seq<Seq<Seq<char>>>) -> bool {
    &&& run.len() > 0
    &&& forall|k: int|
        0 <= k < run.len() - 1 ==> one_join(ranks, #[trigger] run[k], run[k + 1])
    &&& forall|i: int| !#[trigger] joinable(ranks, run[run.len() - 1], i)
}

/// How many of the bytes below `b` are not printable.
pub open spec fn unprintable_below(b: int) -> int
    decreases b,
{
    if b <= 0 {
        0
    } else {
        let c = b - 1;
        unprintable_below(c) + if 0x21 <= c <= 0x7E || 0xA1 <= c <= 0xAC || 0xAE <= c <= 0xFF {
            0int
        } else {
            1
        }
    }
}

proof fn lemma_unprintable_below(b: int)
    requires
        0 <= b <= 256,
    ensures
        unprintable_below(b) == (if b <= 0x21 {
            b
        } else if b <= 0x7F {
            0x21
        } else if b <= 0xA1 {
            b - 0x7F + 0x21
        } else if b <= 0xAD {
            0x43
        } else {
            0x44
        }),
    decreases b,
{
    if b > 0 {
        lemma_unprintable_below(b - 1);
    }
}

/// Printable bytes stand for themselves, the others in ascending order for the
/// characters from `U+0100` on.
pub proof fn lemma_alphabet(b: u8)
    ensures
        bpe::byte_char(b) as int == (if 0x21 <= b <= 0x7E || 0xA1 <= b <= 0xAC || 0xAE <= b {
            b as int
        } else {
            0x100 + unprintable_below(b as int)
        }),
{
    lemma_unprintable_below(b as int);
}

proof fn lemma_best(s: Seq<Seq<char>>, ranks: Map<Seq<char>, usize>, n: int)
    requires
        n <= s.len() - 1,
    ensures
        match bpe::best_pair(s, ranks, n) {
            None => forall|i: int| 0 <= i < n ==> !#[trigger] joinable(ranks, s, i),
            Some((rank, p)) => {
                &&& 0 <= p < n
                &&& joinable(ranks, s, p)
                &&& ranks[merge_line(s, p)] == rank
                &&& forall|i: int|
                    0 <= i < n && #[trigger] joinable(ranks, s, i) ==> rank <= ranks[merge_line(
                        s,
                        i,
                    )] && (i < p ==> rank < ranks[merge_line(s, i)])
            },
        },
    decreases n,
{
    if n > 0 {
        lemma_best(s, ranks, n - 1);
    }
}

/// The chosen pair goes first, and none is chosen only where none is ranked.
pub proof fn lemma_lowest_rank(s: Seq<Seq<char>>, ranks: Map<Seq<char>, usize>)
    ensures
        match bpe::best_pair(s, ranks, s.len() - 1) {
            None => forall|i: int| !#[trigger] joinable(ranks, s, i),
            Some((rank, p)) => goes_first(ranks, s, p) && rank == ranks[merge_line(s, p)],
        },
{
    lemma_best(s, ranks, s.len() - 1);
}

/// Only one pair goes first.
proof fn lemma_first_unique(
    ranks: Map<Seq<char>, usize>,
    s: Seq<Seq<char>>,
    p: int,
    q: int,
)
    requires
        goes_first(ranks, s, p),
        goes_first(ranks, s, q),
    ensures
        p == q,
{
    assert(joinable(ranks, s, p) && joinable(ranks, s, q));
}

/// Joining changes nothing but the pair.
proof fn lemma_joined(a: Seq<Seq<char>>, b: Seq<Seq<char>>, p: int)
    requires
        joined_at(a, b, p),
    ensures
        bpe::join_at(a, p) == b,
{
    assert(bpe::join_at(a, p) =~= b);
}

proof fn lemma_run_tail(ranks: Map<Seq<char>, usize>, run: Seq<Seq<Seq<char>>>)
    requires
        is_run(ranks, run),
        run.len() > 1,
    ensures
        is_run(ranks, run.skip(1)),
{
    let t = run.skip(1);
    assert forall|k: int| 0 <= k < t.len() - 1 implies one_join(
        ranks,
        #[trigger] t[k],
        t[k + 1],
    ) by {
        assert(t[k] == run[k + 1] && t[k + 1] == run[(k + 1) + 1]);
        assert(one_join(ranks, run[k + 1], run[(k + 1) + 1]));
    }
    assert(t[t.len() - 1] == run[run.len() - 1]);
}

/// Merging gives the end of the run.
pub proof fn lemma_merging_runs(ranks: Map<Seq<char>, usize>, run: Seq<Seq<Seq<char>>>)
    requires
        is_run(ranks, run),
    ensures
        bpe::merged(run[0], ranks) == run[run.len() - 1],
    decreases run.len(),
{
    lemma_lowest_rank(run[0], ranks);
    if run.len() > 1 {
        assert(one_join(ranks, run[0], run[1]));
        let p = choose|p: int|
            goes_first(ranks, run[0], p) && #[trigger] joined_at(run[0], run[1], p);
        assert(joinable(ranks, run[0], p));
        let (_, q) = bpe::best_pair(run[0], ranks, run[0].len() - 1)->0;
        lemma_first_unique(ranks, run[0], p, q);
        lemma_joined(run[0], run[1], p);
        lemma_run_tail(ranks, run);
        lemma_merging_runs(ranks, run.skip(1));
        assert(run.skip(1)[0] == run[1]);
        assert(run.skip(1)[run.len() - 2] == run[run.len() - 1]);
    } else {
        if let Some((_, q)) = bpe::best_pair(run[0], ranks, run[0].len() - 1) {
            assert(joinable(ranks, run[0], q));
        }
    }
}

/// Every list of symbols has a run.
pub proof fn lemma_run_exists(ranks: Map<Seq<char>, usize>, s: Seq<Seq<char>>) -> (run: Seq<
    Seq<Seq<char>>,
>)
    ensures
        is_run(ranks, run),
        run[0] == s,
    decreases s.len(),
{
    lemma_lowest_rank(s, ranks);
    match bpe::best_pair(s, ranks, s.len() - 1) {
        None => seq![s],
        Some((_, p)) => {
            let next = bpe::join_at(s, p);
            assert(joined_at(s, next, p));
            let rest = lemma_run_exists(ranks, next);
            let run = seq![s] + rest;
            assert(one_join(ranks, s, next));
            assert forall|k: int| 0 <= k < run.len() - 1 implies one_join(
                ranks,
                #[trigger] run[k],
                run[k + 1],
            ) by {
                if k > 0 {
                    assert(run[k] == rest[k - 1] && run[k + 1] == rest[k]);
                    assert(one_join(ranks, rest[k - 1], rest[(k - 1) + 1]));
                }
            }
            assert(run[run.len() - 1] == rest[rest.len() - 1]);
            run
        },
    }
}

proof fn lemma_ids_each(v: VocabularyView, tokens: Seq<Seq<char>>)
    ensures
        v.ids_of(tokens) is Ok <==> forall|i: int|
            0 <= i < tokens.len() ==> v.vocab.contains_key(#[trigger] tokens[i]),
        v.ids_of(tokens) matches Ok(ids) ==> ids.len() == tokens.len() && forall|i: int|
            0 <= i < ids.len() ==> #[trigger] ids[i] == v.vocab[tokens[i]],
    decreases tokens.len(),
{
    if tokens.len() > 0 {
        let front = tokens.drop_last();
        lemma_ids_each(v, front);
        assert forall|i: int| 0 <= i < front.len() implies #[trigger] front[i] == tokens[i] by {}
        if v.ids_of(tokens) is Ok {
            assert forall|i: int| 0 <= i < tokens.len() implies v.vocab.contains_key(
                #[trigger] tokens[i],
            ) by {
                if i < front.len() {
                    assert(front[i] == tokens[i]);
                }
            }
        } else if v.ids_of(front) is Err {
            let i = choose|i: int|
                0 <= i < front.len() && !v.vocab.contains_key(#[trigger] front[i]);
            assert(tokens[i] == front[i]);
        } else {
            assert(!v.vocab.contains_key(tokens[tokens.len() - 1]));
        }
    }
}

/// The ids of a word: its bytes in the byte-level alphabet are joined pair by
/// pair, always the pair that goes first, until none is left; then each symbol
/// has the id that the vocabulary gives it, and a symbol without one is an
/// error.
pub proof fn lemma_word(v: VocabularyView, word: Seq<char>, run: Seq<Seq<Seq<char>>>)
    requires
        is_run(v.ranks, run),
        run[0].len() == encode_utf8(word).len(),
        forall|i: int|
            0 <= i < run[0].len() ==> {
                let b = encode_utf8(word)[i] as int;
                let c = #[trigger] run[0][i];
                c.len() == 1 && c[0] as int == (if 0x21 <= b <= 0x7E || 0xA1 <= b <= 0xAC || 0xAE
                    <= b {
                    b
                } else {
                    0x100 + unprintable_below(b)
                })
            },
    ensures
        ({
            let tokens = run[run.len() - 1];
            match v.word_ids(word) {
                Ok(ids) => {
                    &&& ids.len() == tokens.len()
                    &&& forall|i: int|
                        0 <= i < ids.len() ==> v.vocab.contains_key(tokens[i]) && #[trigger] ids[i]
                            == v.vocab[tokens[i]]
                },
                Err(_) => exists|i: int|
                    0 <= i < tokens.len() && !v.vocab.contains_key(#[trigger] tokens[i]),
            }
        }),
{
    let b = encode_utf8(word);
    let s = bpe::byte_symbols(word);
    assert(s =~= run[0]) by {
        assert forall|i: int| 0 <= i < s.len() implies s[i] == #[trigger] run[0][i] by {
            lemma_alphabet(b[i]);
            assert(s[i] =~= run[0][i]);
        }
    }
    lemma_merging_runs(v.ranks, run);
    lemma_ids_each(v, run[run.len() - 1]);
}

} // verus!
