//! What a `tokenizer.json` document makes of tokens and merges, and how a text
//! is put together from words and added tokens.
use crate::text;
use crate::tokenizer::bpe;
use crate::tokenizer::bpe::{ChunkView, VocabularyView};
use crate::tokenizer::json::ValueView;
use crate::tokenizer::laws;
use crate::tokenizer::words;
use crate::widths;
use vstd::prelude::*;
use vstd::utf8::*;

verus! {

/// Whether member `i` is the last one called `name`.
pub open spec fn last_called(m: Seq<(Seq<char>, ValueView)>, name: Seq<char>, i: int) -> bool {
    &&& 0 <= i < m.len()
    &&& m[i].0 == name
    &&& forall|j: int| i < j < m.len() ==> (#[trigger] m[j]).0 != name
}

/// Whether element `i` is the last one that holds the text `line`.
pub open spec fn last_line(a: Seq<ValueView>, line: Seq<char>, i: int) -> bool {
    &&& 0 <= i < a.len()
    &&& a[i] == ValueView::String(line)
    &&& forall|j: int| i < j < a.len() ==> #[trigger] a[j] != ValueView::String(line)
}

/// Whether every member of a vocabulary is a number.
pub open spec fn all_numbers(m: Seq<(Seq<char>, ValueView)>) -> bool {
    forall|i: int| 0 <= i < m.len() ==> (#[trigger] m[i]).1 is Number
}

/// The id that member `i` of a vocabulary gives its token.
pub open spec fn id_at(m: Seq<(Seq<char>, ValueView)>, i: int) -> u32 {
    widths::truncated_u32(m[i].1->Number_0)
}

proof fn lemma_pairs(m: Seq<(Seq<char>, ValueView)>, n: int)
    requires
        0 <= n <= m.len(),
    ensures
        bpe::vocab_pairs(m, n) is Some <==> forall|i: int|
            0 <= i < n ==> (#[trigger] m[i]).1 is Number,
        bpe::vocab_pairs(m, n) matches Some(p) ==> p.len() == n && forall|i: int|
            0 <= i < n ==> #[trigger] p[i] == (m[i].0, id_at(m, i)),
    decreases n,
{
    if n > 0 {
        lemma_pairs(m, n - 1);
        if bpe::vocab_pairs(m, n) is None {
            if bpe::vocab_pairs(m, n - 1) is Some {
                assert(!(m[n - 1].1 is Number));
            }
        }
    }
}

proof fn lemma_map_has(p: Seq<(Seq<char>, u32)>, t: Seq<char>)
    ensures
        bpe::vocab_map(p).contains_key(t) ==> exists|i: int|
            0 <= i < p.len() && (#[trigger] p[i]).0 == t,
    decreases p.len(),
{
    if p.len() > 0 {
        let f = p.drop_last();
        let last = p.len() - 1;
        lemma_map_has(f, t);
        if bpe::vocab_map(p).contains_key(t) {
            if p[last].0 != t {
                let i = choose|i: int| 0 <= i < f.len() && (#[trigger] f[i]).0 == t;
                assert(p[i] == f[i]);
            }
        }
    }
}

proof fn lemma_map_keeps(p: Seq<(Seq<char>, u32)>, i: int)
    requires
        0 <= i < p.len(),
    ensures
        bpe::vocab_map(p).contains_key(p[i].0),
    decreases p.len(),
{
    let f = p.drop_last();
    if i < p.len() - 1 {
        lemma_map_keeps(f, i);
        assert(f[i] == p[i]);
    }
}

proof fn lemma_map_value(p: Seq<(Seq<char>, u32)>, t: Seq<char>, i: int)
    requires
        0 <= i < p.len(),
        p[i].0 == t,
        forall|j: int| i < j < p.len() ==> (#[trigger] p[j]).0 != t,
    ensures
        bpe::vocab_map(p)[t] == p[i].1,
    decreases p.len(),
{
    let f = p.drop_last();
    let last = p.len() - 1;
    if i < last {
        assert(p[last].0 != t);
        assert forall|j: int| i < j < f.len() implies (#[trigger] f[j]).0 != t by {
            assert(p[j].0 != t);
        }
        assert(f[i] == p[i]);
        lemma_map_value(f, t, i);
    }
}

proof fn lemma_highest(p: Seq<(Seq<char>, u32)>)
    ensures
        forall|i: int| 0 <= i < p.len() ==> (#[trigger] p[i]).1 <= bpe::highest_id(p),
        p.len() == 0 ==> bpe::highest_id(p) == 0,
        p.len() > 0 ==> exists|i: int|
            0 <= i < p.len() && (#[trigger] p[i]).1 == bpe::highest_id(p),
    decreases p.len(),
{
    if p.len() > 0 {
        let f = p.drop_last();
        lemma_highest(f);
        let last = p.len() - 1;
        assert forall|i: int| 0 <= i < p.len() implies (#[trigger] p[i]).1 <= bpe::highest_id(
            p,
        ) by {
            if i < last {
                assert(f[i] == p[i]);
            }
        }
        if p[last].1 > bpe::highest_id(f) {
            assert(p[last].1 == bpe::highest_id(p));
        } else if f.len() > 0 {
            let i = choose|i: int| 0 <= i < f.len() && (#[trigger] f[i]).1 == bpe::highest_id(f);
            assert(p[i].1 == bpe::highest_id(p));
        } else {
            assert(p[last].1 == bpe::highest_id(p));
        }
    }
}

proof fn lemma_token(p: Seq<(Seq<char>, u32)>, id: int, i: int)
    requires
        0 <= i < p.len(),
        p[i].1 == id,
        forall|j: int| i < j < p.len() ==> (#[trigger] p[j]).1 != id,
    ensures
        bpe::token_with_id(p, id) == p[i].0,
    decreases p.len(),
{
    let f = p.drop_last();
    if i < p.len() - 1 {
        assert(p[p.len() - 1].1 != id);
        assert(f[i] == p[i]);
        assert forall|j: int| i < j < f.len() implies (#[trigger] f[j]).1 != id by {
            assert(p[j].1 != id);
        }
        lemma_token(f, id, i);
    }
}

proof fn lemma_no_token(p: Seq<(Seq<char>, u32)>, id: int)
    requires
        forall|j: int| 0 <= j < p.len() ==> (#[trigger] p[j]).1 != id,
    ensures
        bpe::token_with_id(p, id).len() == 0,
    decreases p.len(),
{
    if p.len() > 0 {
        let f = p.drop_last();
        assert(p[p.len() - 1].1 != id);
        assert forall|j: int| 0 <= j < f.len() implies (#[trigger] f[j]).1 != id by {
            assert(p[j].1 != id);
        }
        lemma_no_token(f, id);
    }
}

/// Whether every element of a merge list is a text of two parts with one blank
/// between them.
pub open spec fn all_merges(a: Seq<ValueView>) -> bool {
    forall|i: int| 0 <= i < a.len() ==> is_merge(#[trigger] a[i])
}

/// Whether an element is such a text.
pub open spec fn is_merge(v: ValueView) -> bool {
    v matches ValueView::String(line) && bpe::is_merge_line(line)
}

proof fn lemma_ranks_ok(a: Seq<ValueView>, n: int)
    requires
        0 <= n <= a.len(),
    ensures
        bpe::merge_ranks(a, n) is Ok <==> forall|i: int| 0 <= i < n ==> is_merge(#[trigger] a[i]),
    decreases n,
{
    if n > 0 {
        lemma_ranks_ok(a, n - 1);
        if bpe::merge_ranks(a, n) is Err && bpe::merge_ranks(a, n - 1) is Ok {
            assert(!is_merge(a[n - 1]));
        }
    }
}

proof fn lemma_ranks_has(a: Seq<ValueView>, n: int, line: Seq<char>)
    requires
        0 <= n <= a.len(),
        bpe::merge_ranks(a, n) is Ok,
    ensures
        bpe::merge_ranks(a, n)->Ok_0.contains_key(line) ==> exists|i: int|
            0 <= i < n && #[trigger] a[i] == ValueView::String(line),
    decreases n,
{
    if n > 0 {
        lemma_ranks_has(a, n - 1, line);
        if bpe::merge_ranks(a, n)->Ok_0.contains_key(line) && a[n - 1] != ValueView::String(line) {
            assert(bpe::merge_ranks(a, n - 1)->Ok_0.contains_key(line));
        }
    }
}

proof fn lemma_ranks_keep(a: Seq<ValueView>, n: int, line: Seq<char>, i: int)
    requires
        0 <= i < n <= a.len(),
        bpe::merge_ranks(a, n) is Ok,
        a[i] == ValueView::String(line),
    ensures
        bpe::merge_ranks(a, n)->Ok_0.contains_key(line),
    decreases n,
{
    if i < n - 1 {
        lemma_ranks_keep(a, n - 1, line, i);
    }
}

proof fn lemma_ranks_value(a: Seq<ValueView>, n: int, line: Seq<char>, i: int)
    requires
        0 <= i < n <= a.len(),
        bpe::merge_ranks(a, n) is Ok,
        a[i] == ValueView::String(line),
        forall|j: int| i < j < n ==> #[trigger] a[j] != ValueView::String(line),
    ensures
        bpe::merge_ranks(a, n)->Ok_0[line] == i as usize,
    decreases n,
{
    if i < n - 1 {
        assert(a[n - 1] != ValueView::String(line));
        lemma_ranks_value(a, n - 1, line, i);
    }
}

/// The tokens of a loaded vocabulary: a token has an id exactly where the
/// document's vocabulary has a member of that name, and it is the number of the
/// last such member. The ids go up to the highest of these numbers; each stands
/// for the last token with that number, and for nothing where there is none.
pub proof fn lemma_vocabulary(
    v: ValueView,
    model: ValueView,
    m: Seq<(Seq<char>, ValueView)>,
    token: Seq<char>,
    id: int,
    i: int,
)
    requires
        bpe::loaded(v) is Ok,
        v.member("model"@) == Some(model),
        model.member("vocab"@) == Some(ValueView::Object(m)),
    ensures
        ({
            let x = bpe::loaded(v)->Ok_0;
            &&& all_numbers(m)
            &&& x.vocab.contains_key(token) <==> exists|k: int|
                0 <= k < m.len() && (#[trigger] m[k]).0 == token
            &&& last_called(m, token, i) ==> x.vocab[token] == id_at(m, i)
            &&& x.ids.len() > 0
            &&& 0 <= i < m.len() ==> id_at(m, i) < x.ids.len()
            &&& x.ids.len() > 1 ==> exists|k: int|
                0 <= k < m.len() && (#[trigger] m[k]).1 is Number && id_at(m, k) == x.ids.len() - 1
            &&& 0 <= i < m.len() && (forall|k: int|
                i < k < m.len() ==> (#[trigger] m[k]).1 is Number && id_at(m, k) != id_at(m, i))
                ==> x.ids[id_at(m, i) as int] == m[i].0
            &&& 0 <= id < x.ids.len() && (forall|k: int|
                0 <= k < m.len() ==> (#[trigger] m[k]).1 is Number && id_at(m, k) != id)
                ==> x.ids[id].len() == 0
        }),
{
    let n = m.len() as int;
    lemma_pairs(m, n);
    let p = bpe::vocab_pairs(m, n)->0;
    let x = bpe::loaded(v)->Ok_0;
    lemma_map_has(p, token);
    lemma_highest(p);
    if x.vocab.contains_key(token) {
        let k = choose|k: int| 0 <= k < p.len() && (#[trigger] p[k]).0 == token;
        assert(m[k].0 == token);
    }
    if exists|k: int| 0 <= k < m.len() && (#[trigger] m[k]).0 == token {
        let k = choose|k: int| 0 <= k < m.len() && (#[trigger] m[k]).0 == token;
        assert(p[k].0 == token);
        lemma_map_keeps(p, k);
    }
    if last_called(m, token, i) {
        assert(p[i].0 == token);
        assert forall|j: int| i < j < p.len() implies (#[trigger] p[j]).0 != token by {
            assert(m[j].0 != token);
        }
        lemma_map_value(p, token, i);
    }
    if x.ids.len() > 1 {
        let k = choose|k: int| 0 <= k < p.len() && (#[trigger] p[k]).1 == bpe::highest_id(p);
        assert(m[k].1 is Number);
    }
    if 0 <= i < n {
        assert(p[i].1 <= bpe::highest_id(p));
        if forall|k: int|
            i < k < m.len() ==> (#[trigger] m[k]).1 is Number && id_at(m, k) != id_at(m, i) {
            assert forall|j: int| i < j < p.len() implies (#[trigger] p[j]).1 != id_at(m, i) by {
                assert(m[j].1 is Number);
            }
            lemma_token(p, id_at(m, i) as int, i);
        }
    }
    if forall|k: int| 0 <= k < m.len() ==> (#[trigger] m[k]).1 is Number && id_at(m, k) != id {
        assert forall|j: int| 0 <= j < p.len() implies (#[trigger] p[j]).1 != id by {
            assert(m[j].1 is Number);
        }
        lemma_no_token(p, id);
    }
}

/// The merges of a loaded vocabulary: a merge is known exactly where the list
/// has it, and its rank is the number of its last place in the list, so what
/// comes earlier in the list is joined first.
pub proof fn lemma_merges(
    v: ValueView,
    model: ValueView,
    a: Seq<ValueView>,
    line: Seq<char>,
    i: int,
)
    requires
        bpe::loaded(v) is Ok,
        v.member("model"@) == Some(model),
        model.member("merges"@) == Some(ValueView::Array(a)),
    ensures
        ({
            let x = bpe::loaded(v)->Ok_0;
            &&& all_merges(a)
            &&& x.ranks.contains_key(line) <==> exists|k: int|
                0 <= k < a.len() && #[trigger] a[k] == ValueView::String(line)
            &&& last_line(a, line, i) ==> x.ranks[line] == i as usize
        }),
{
    let n = a.len() as int;
    let x = bpe::loaded(v)->Ok_0;
    lemma_ranks_ok(a, n);
    lemma_ranks_has(a, n, line);
    if exists|k: int| 0 <= k < a.len() && #[trigger] a[k] == ValueView::String(line) {
        let k = choose|k: int| 0 <= k < a.len() && #[trigger] a[k] == ValueView::String(line);
        lemma_ranks_keep(a, n, line, k);
    }
    if last_line(a, line, i) {
        lemma_ranks_value(a, n, line, i);
    }
}

/// Whether an added token has a number and a text.
pub open spec fn is_added(v: ValueView) -> bool {
    &&& v.member("id"@) matches Some(ValueView::Number(_))
    &&& v.member("content"@) matches Some(ValueView::String(_))
}

/// Whether every added token has a number and a text.
pub open spec fn all_added(a: Seq<ValueView>) -> bool {
    forall|i: int| 0 <= i < a.len() ==> is_added(#[trigger] a[i])
}

/// The text and the id of an added token.
pub open spec fn added_pair(v: ValueView) -> (Seq<char>, u32) {
    (
        v.member("content"@)->0->String_0,
        widths::truncated_u32(v.member("id"@)->0->Number_0),
    )
}

proof fn lemma_added_list(a: Seq<ValueView>, n: int)
    requires
        0 <= n <= a.len(),
    ensures
        bpe::added_tokens(a, n) is Ok <==> forall|i: int|
            0 <= i < n ==> is_added(#[trigger] a[i]),
        bpe::added_tokens(a, n) matches Ok(s) ==> s == Seq::new(n as nat, |i: int| added_pair(a[i])),
    decreases n,
{
    if n > 0 {
        lemma_added_list(a, n - 1);
        if let Ok(s) = bpe::added_tokens(a, n) {
            assert(s =~= Seq::new(n as nat, |i: int| added_pair(a[i])));
        }
        if bpe::added_tokens(a, n) is Err && bpe::added_tokens(a, n - 1) is Ok {
            assert(!is_added(a[n - 1]));
        }
    }
}

/// The added tokens of a loaded vocabulary are those of the document, the
/// longest first.
pub proof fn lemma_added(v: ValueView, a: Seq<ValueView>)
    requires
        bpe::loaded(v) is Ok,
        v.member("added_tokens"@) == Some(ValueView::Array(a)),
    ensures
        ({
            let x = bpe::loaded(v)->Ok_0;
            &&& all_added(a)
            &&& x.added.to_multiset() == Seq::new(
                a.len(),
                |i: int| added_pair(a[i]),
            ).to_multiset()
            &&& laws::descending(x.added)
        }),
{
    lemma_added_list(a, a.len() as int);
    laws::lemma_longest_first(Seq::new(a.len(), |i: int| added_pair(a[i])));
}

/// A supported recipe is loaded wherever its ids are numbers, its merges
/// have two parts and its added tokens are complete.
pub proof fn lemma_load_succeeds(v: ValueView)
    requires
        bpe::recipe_fault(v) is None,
        (v.member("model"@)->0).member("vocab"@) matches Some(ValueView::Object(m)) && all_numbers(
            m,
        ),
        (v.member("model"@)->0).member("merges"@) matches Some(ValueView::Array(a)) ==> all_merges(
            a,
        ),
        v.member("added_tokens"@) matches Some(ValueView::Array(a)) ==> all_added(a),
    ensures
        bpe::loaded(v) is Ok,
{
    let model = v.member("model"@)->0;
    let m = model.member("vocab"@)->0->Object_0;
    lemma_pairs(m, m.len() as int);
    if let Some(ValueView::Array(a)) = model.member("merges"@) {
        lemma_ranks_ok(a, a.len() as int);
    }
    if let Some(ValueView::Array(a)) = v.member("added_tokens"@) {
        lemma_added_list(a, a.len() as int);
    }
}

/// Lists in a row.
pub open spec fn flat(parts: Seq<Seq<u32>>) -> Seq<u32>
    decreases parts.len(),
{
    if parts.len() == 0 {
        seq![]
    } else {
        parts[0] + flat(parts.skip(1))
    }
}

/// Words have ids where each of them has, and then they are those of the words
/// in a row.
pub proof fn lemma_words(v: VocabularyView, list: Seq<Seq<char>>)
    ensures
        v.words_ids(list, None) is Ok <==> forall|i: int|
            0 <= i < list.len() ==> v.word_ids(#[trigger] list[i]) is Ok,
        v.words_ids(list, None) matches Ok(ids) ==> ids == flat(
            Seq::new(list.len(), |i: int| v.word_ids(list[i])->Ok_0),
        ),
    decreases list.len(),
{
    if list.len() > 0 {
        let rest = list.skip(1);
        lemma_words(v, rest);
        assert forall|j: int| 0 <= j < rest.len() implies #[trigger] rest[j] == list[j + 1] by {}
        if v.words_ids(list, None) is Ok {
            assert forall|i: int| 0 <= i < list.len() implies v.word_ids(#[trigger] list[i]) is Ok by {
                if i > 0 {
                    assert(rest[i - 1] == list[i]);
                }
            }
            let all = Seq::new(list.len(), |i: int| v.word_ids(list[i])->Ok_0);
            assert(all.skip(1) =~= Seq::new(rest.len(), |i: int| v.word_ids(rest[i])->Ok_0));
        }
        if forall|i: int| 0 <= i < list.len() ==> v.word_ids(#[trigger] list[i]) is Ok {
            assert(v.word_ids(list[0]) is Ok);
            assert forall|j: int| 0 <= j < rest.len() implies v.word_ids(#[trigger] rest[j]) is Ok by {
                assert(v.word_ids(list[j + 1]) is Ok);
            }
        }
    }
}

/// The ids of a piece: those of the words that the pattern finds in it.
pub open spec fn piece_ids(v: VocabularyView, pattern: Seq<char>, piece: Seq<char>) -> Result<
    Seq<u32>,
    Seq<char>,
> {
    let found = words::matches_of(pattern, piece);
    v.words_ids(found.0, found.1)
}

/// Pieces have ids where each of them has, and then they are those of the
/// pieces in a row.
pub proof fn lemma_pieces(v: VocabularyView, pattern: Seq<char>, list: Seq<Seq<char>>)
    ensures
        bpe::pieces_ids(v, pattern, list) is Ok <==> forall|i: int|
            0 <= i < list.len() ==> piece_ids(v, pattern, #[trigger] list[i]) is Ok,
        bpe::pieces_ids(v, pattern, list) matches Ok(ids) ==> ids == flat(
            Seq::new(list.len(), |i: int| piece_ids(v, pattern, list[i])->Ok_0),
        ),
    decreases list.len(),
{
    if list.len() > 0 {
        let rest = list.skip(1);
        lemma_pieces(v, pattern, rest);
        assert forall|j: int| 0 <= j < rest.len() implies #[trigger] rest[j] == list[j + 1] by {}
        if bpe::pieces_ids(v, pattern, list) is Ok {
            assert forall|i: int| 0 <= i < list.len() implies piece_ids(
                v,
                pattern,
                #[trigger] list[i],
            ) is Ok by {
                if i > 0 {
                    assert(rest[i - 1] == list[i]);
                }
            }
            let all = Seq::new(list.len(), |i: int| piece_ids(v, pattern, list[i])->Ok_0);
            assert(all.skip(1) =~= Seq::new(
                rest.len(),
                |i: int| piece_ids(v, pattern, rest[i])->Ok_0,
            ));
        }
        if forall|i: int| 0 <= i < list.len() ==> piece_ids(v, pattern, #[trigger] list[i]) is Ok {
            assert(piece_ids(v, pattern, list[0]) is Ok);
            assert forall|j: int| 0 <= j < rest.len() implies piece_ids(
                v,
                pattern,
                #[trigger] rest[j],
            ) is Ok by {
                assert(piece_ids(v, pattern, list[j + 1]) is Ok);
            }
        }
    }
}

/// Whether an added token that is not empty stands at position `i`.
pub open spec fn stands_added(t: Seq<char>, added: Seq<(Seq<char>, u32)>, i: int) -> bool {
    exists|k: int|
        0 <= k < added.len() && (#[trigger] added[k]).0.len() > 0 && text::occurs_at(
            t,
            added[k].0,
            i,
        )
}

/// Whether entry `k` is the first added token that stands at position `i`.
pub open spec fn first_added(t: Seq<char>, added: Seq<(Seq<char>, u32)>, i: int, k: int) -> bool {
    &&& 0 <= k < added.len()
    &&& added[k].0.len() > 0
    &&& text::occurs_at(t, added[k].0, i)
    &&& forall|j: int|
        0 <= j < k && (#[trigger] added[j]).0.len() > 0 ==> !text::occurs_at(t, added[j].0, i)
}

proof fn lemma_added_at(t: Seq<char>, added: Seq<(Seq<char>, u32)>, i: int, k: int, from: int)
    requires
        first_added(t, added, i, k),
        0 <= from <= k,
    ensures
        bpe::added_at(t, i, added, from) == Some(added[k]),
    decreases k - from,
{
    if from < k {
        assert(added[from].0.len() > 0 ==> !text::occurs_at(t, added[from].0, i));
        lemma_added_at(t, added, i, k, from + 1);
    }
}

proof fn lemma_none_at(t: Seq<char>, added: Seq<(Seq<char>, u32)>, i: int, from: int)
    requires
        !stands_added(t, added, i),
        0 <= from <= added.len(),
    ensures
        bpe::added_at(t, i, added, from) is None,
    decreases added.len() - from,
{
    if from < added.len() {
        assert(!(added[from].0.len() > 0 && text::occurs_at(t, added[from].0, i)));
        lemma_none_at(t, added, i, from + 1);
    }
}

/// A text without an added token from `i` on is one chunk, or none where it is
/// empty.
pub proof fn lemma_plain(t: Seq<char>, added: Seq<(Seq<char>, u32)>, start: int, i: int)
    requires
        0 <= start <= i <= t.len(),
        forall|p: int| i <= p < t.len() ==> !#[trigger] stands_added(t, added, p),
    ensures
        bpe::chunks_from(t, start, i, added) == (if start < t.len() {
            seq![ChunkView::Text(t.subrange(start, t.len() as int))]
        } else {
            seq![]
        }),
    decreases t.len() - i,
{
    if i < t.len() {
        assert(!stands_added(t, added, i));
        lemma_none_at(t, added, i, 0);
        lemma_plain(t, added, start, i + 1);
    } else {
        assert(t.skip(start) =~= t.subrange(start, t.len() as int));
    }
}

/// The first added token of a text, at position `at`, is split off whole: what
/// is before it is one chunk, it is the next, and the rest is cut in the same
/// way. Of the tokens that stand there the first in the list is taken.
pub proof fn lemma_split(
    t: Seq<char>,
    added: Seq<(Seq<char>, u32)>,
    start: int,
    i: int,
    at: int,
    k: int,
)
    requires
        0 <= start <= i <= at < t.len(),
        forall|p: int| i <= p < at ==> !#[trigger] stands_added(t, added, p),
        first_added(t, added, at, k),
    ensures
        ({
            let next = at + added[k].0.len();
            let head = if start < at {
                seq![ChunkView::Text(t.subrange(start, at))]
            } else {
                seq![]
            };
            bpe::chunks_from(t, start, i, added) == head + seq![ChunkView::Special(added[k].1)]
                + bpe::chunks_from(t, next, next, added)
        }),
    decreases at - i,
{
    if i < at {
        assert(!stands_added(t, added, i));
        lemma_none_at(t, added, i, 0);
        lemma_split(t, added, start, i + 1, at, k);
    } else {
        lemma_added_at(t, added, at, k, 0);
    }
}

/// The ids of a chunk: the id of an added token, or those of the pieces of a
/// text, which are its digits one by one and what is between them.
pub open spec fn chunk_ids(v: VocabularyView, pattern: Seq<char>, c: ChunkView) -> Result<
    Seq<u32>,
    Seq<char>,
> {
    match c {
        ChunkView::Special(id) => Ok(seq![id]),
        ChunkView::Text(s) => bpe::pieces_ids(v, pattern, bpe::digit_pieces(s)),
    }
}

/// A text has ids where each of its chunks has, and then they are those of the
/// chunks in a row.
pub proof fn lemma_chunks(v: VocabularyView, pattern: Seq<char>, t: Seq<char>)
    ensures
        ({
            let list = bpe::chunks_from(t, 0, 0, v.added);
            &&& bpe::encoded(v, pattern, t) is Ok <==> forall|i: int|
                0 <= i < list.len() ==> chunk_ids(v, pattern, #[trigger] list[i]) is Ok
            &&& bpe::encoded(v, pattern, t) matches Ok(ids) ==> ids == flat(
                Seq::new(list.len(), |i: int| chunk_ids(v, pattern, list[i])->Ok_0),
            )
        }),
{
    lemma_chunk_list(v, pattern, bpe::chunks_from(t, 0, 0, v.added));
}

proof fn lemma_chunk_list(v: VocabularyView, pattern: Seq<char>, list: Seq<ChunkView>)
    ensures
        bpe::chunks_ids(v, pattern, list) is Ok <==> forall|i: int|
            0 <= i < list.len() ==> chunk_ids(v, pattern, #[trigger] list[i]) is Ok,
        bpe::chunks_ids(v, pattern, list) matches Ok(ids) ==> ids == flat(
            Seq::new(list.len(), |i: int| chunk_ids(v, pattern, list[i])->Ok_0),
        ),
    decreases list.len(),
{
    if list.len() > 0 {
        let rest = list.skip(1);
        lemma_chunk_list(v, pattern, rest);
        assert forall|j: int| 0 <= j < rest.len() implies #[trigger] rest[j] == list[j + 1] by {}
        if bpe::chunks_ids(v, pattern, list) is Ok {
            assert forall|i: int| 0 <= i < list.len() implies chunk_ids(
                v,
                pattern,
                #[trigger] list[i],
            ) is Ok by {
                if i > 0 {
                    assert(rest[i - 1] == list[i]);
                }
            }
            let all = Seq::new(list.len(), |i: int| chunk_ids(v, pattern, list[i])->Ok_0);
            assert(all.skip(1) =~= Seq::new(
                rest.len(),
                |i: int| chunk_ids(v, pattern, rest[i])->Ok_0,
            ));
        }
        if forall|i: int| 0 <= i < list.len() ==> chunk_ids(v, pattern, #[trigger] list[i]) is Ok {
            assert(chunk_ids(v, pattern, list[0]) is Ok);
            assert forall|j: int| 0 <= j < rest.len() implies chunk_ids(
                v,
                pattern,
                #[trigger] rest[j],
            ) is Ok by {
                assert(chunk_ids(v, pattern, list[j + 1]) is Ok);
            }
        }
    }
}

/// Whether a piece is a digit.
pub open spec fn is_digit_piece(p: Seq<char>) -> bool {
    p.len() == 1 && '0' <= p[0] <= '9'
}

/// Whether of the pieces `i - 1` and `i` one is a digit.
pub open spec fn digit_beside(pieces: Seq<Seq<char>>, i: int) -> bool {
    is_digit_piece(pieces[i - 1]) || is_digit_piece(pieces[i])
}

/// A text is cut nowhere but before and behind its digits: of two pieces in a
/// row one is a digit, and a piece that is none has no digit in it.
pub proof fn lemma_digit_runs(s: Seq<char>)
    ensures
        bpe::concat(bpe::digit_pieces(s)) == s,
        forall|i: int|
            0 < i < bpe::digit_pieces(s).len() ==> #[trigger] digit_beside(bpe::digit_pieces(s), i),
        forall|i: int, j: int|
            0 <= i < bpe::digit_pieces(s).len() && 0 <= j < bpe::digit_pieces(s)[i].len()
                && !is_digit_piece(bpe::digit_pieces(s)[i]) ==> !('0' <= #[trigger] bpe::digit_pieces(
                s,
            )[i][j] <= '9'),
        s.len() > 0 ==> bpe::digit_pieces(s).len() > 0 && is_digit_piece(bpe::digit_pieces(s)[0])
            == ('0' <= s[0] <= '9'),
    decreases s.len(),
{
    let all = bpe::digit_pieces(s);
    bpe::lemma_digit_pieces(s);
    if s.len() > 0 {
        bpe::lemma_first_digit(s);
        let n = if text::is_digit(s[0]) {
            1
        } else {
            bpe::first_digit(s)
        };
        let rest = s.skip(n);
        let tail = bpe::digit_pieces(rest);
        lemma_digit_runs(rest);
        assert(all == seq![s.take(n)] + tail);
        assert(all[0] == s.take(n));
        assert forall|i: int| 0 < i < all.len() implies #[trigger] digit_beside(all, i) by {
            assert(all[i] == tail[i - 1]);
            if i > 1 {
                assert(digit_beside(tail, i - 1));
                assert(all[i - 1] == tail[i - 2]);
            } else if !text::is_digit(s[0]) {
                assert(rest.len() > 0);
                assert(rest[0] == s[n]);
            }
        }
        assert forall|i: int, j: int|
            0 <= i < all.len() && 0 <= j < all[i].len() && !is_digit_piece(all[i]) implies !('0'
            <= #[trigger] all[i][j] <= '9') by {
            if i > 0 {
                assert(all[i] == tail[i - 1]);
                assert(!('0' <= tail[i - 1][j] <= '9'));
            } else {
                assert(all[0][j] == s[j]);
                assert(!text::is_digit(s[j]));
            }
        }
    }
}

/// A merge is a text with exactly one blank.
pub proof fn lemma_one_blank(line: Seq<char>, i: int, j: int)
    ensures
        bpe::is_merge_line(line) && 0 <= i < j < line.len() ==> !(line[i] == ' ' && line[j] == ' '),
        bpe::is_merge_line(line) ==> exists|k: int| 0 <= k < line.len() && #[trigger] line[k] == ' ',
        0 <= i < line.len() && line[i] == ' ' && (forall|k: int|
            0 <= k < line.len() && k != i ==> #[trigger] line[k] != ' ') ==> bpe::is_merge_line(
            line,
        ),
{
    lemma_found(line, 0);
    if let Some(p) = text::position(line, ' ') {
        lemma_found(line.skip(p + 1), 0);
        let rest = line.skip(p + 1);
        assert forall|k: int| p < k < line.len() implies #[trigger] line[k] == rest[k - p - 1] by {}
        if 0 <= i < j < line.len() && line[i] == ' ' && line[j] == ' ' {
            if text::position(rest, ' ') is None {
                assert(rest[j - p - 1] == ' ');
            }
        }
        if text::position(rest, ' ') is Some && 0 <= i < line.len() && line[i] == ' ' {
            let q = text::position(rest, ' ')->0;
            assert(rest[q] == line[p + 1 + q]);
            assert(line[p] == ' ');
        }
    }
}

/// Where the first blank from `from` on stands.
proof fn lemma_found(s: Seq<char>, from: int)
    requires
        0 <= from <= s.len(),
    ensures
        match text::find_from(s, seq![' '], from) {
            Some(p) => from <= p < s.len() && s[p] == ' ' && forall|k: int|
                from <= k < p ==> #[trigger] s[k] != ' ',
            None => forall|k: int| from <= k < s.len() ==> #[trigger] s[k] != ' ',
        },
    decreases s.len() - from,
{
    if from < s.len() {
        assert(s.subrange(from, from + 1) =~= seq![s[from]]);
        if s[from] != ' ' {
            assert(seq![s[from]][0] != seq![' '][0]);
            lemma_found(s, from + 1);
        }
    }
}

/// Decoding puts the tokens of the ids in a row; an id beyond the vocabulary is
/// an error.
pub proof fn lemma_tokens(v: VocabularyView, ids: Seq<u32>)
    ensures
        v.token_text(ids) is Ok <==> forall|i: int|
            0 <= i < ids.len() ==> #[trigger] ids[i] < v.ids.len(),
        v.token_text(ids) matches Ok(t) ==> t == bpe::concat(
            Seq::new(ids.len(), |i: int| v.ids[ids[i] as int]),
        ),
    decreases ids.len(),
{
    let all = Seq::new(ids.len(), |i: int| v.ids[ids[i] as int]);
    if ids.len() > 0 {
        let front = ids.drop_last();
        let last = ids.len() - 1;
        lemma_tokens(v, front);
        assert forall|i: int| 0 <= i < front.len() implies #[trigger] front[i] == ids[i] by {}
        if v.token_text(ids) is Ok {
            assert forall|i: int| 0 <= i < ids.len() implies #[trigger] ids[i] < v.ids.len() by {
                if i < last {
                    assert(front[i] < v.ids.len());
                }
            }
            let f = Seq::new(front.len(), |i: int| v.ids[front[i] as int]);
            bpe::lemma_concat_push(f, v.ids[ids[last] as int]);
            assert(all =~= f.push(v.ids[ids[last] as int]));
        }
        if forall|i: int| 0 <= i < ids.len() ==> #[trigger] ids[i] < v.ids.len() {
            assert forall|i: int| 0 <= i < front.len() implies #[trigger] front[i] < v.ids.len() by {
                assert(ids[i] < v.ids.len());
            }
            assert(ids[last] < v.ids.len());
        }
    }
}

/// Whether a character stands for no byte.
pub open spec fn is_foreign(c: char) -> bool {
    forall|b: u8| #[trigger] bpe::byte_char(b) != c
}

/// Each character of the tokens stands for the byte whose character it is in the
/// byte-level alphabet; one that is no such character is an error.
pub proof fn lemma_bytes(t: Seq<char>)
    ensures
        bpe::text_bytes(t) matches Ok(b) ==> b.len() == t.len() && forall|i: int|
            0 <= i < t.len() ==> bpe::byte_char(b[i]) == #[trigger] t[i],
        bpe::text_bytes(t) is Err ==> exists|i: int|
            0 <= i < t.len() && is_foreign(#[trigger] t[i]),
    decreases t.len(),
{
    if t.len() > 0 {
        let front = t.drop_last();
        let last = t.len() - 1;
        lemma_bytes(front);
        if bpe::text_bytes(t) is Err {
            if bpe::text_bytes(front) is Err {
                let i = choose|i: int|
                    0 <= i < front.len() && is_foreign(#[trigger] front[i]);
                assert(front[i] == t[i]);
            } else {
                assert forall|b: u8| #[trigger] bpe::byte_char(b) != t[last] by {
                    bpe::lemma_byte_alphabet(b, t[last]);
                }
                assert(is_foreign(t[last]));
            }
        } else {
            let b = bpe::text_bytes(t)->Ok_0;
            bpe::lemma_byte_alphabet(b[last], t[last]);
            assert forall|i: int| 0 <= i < t.len() implies bpe::byte_char(b[i])
                == #[trigger] t[i] by {
                if i < last {
                    assert(front[i] == t[i]);
                }
            }
        }
    }
}

/// Decoded text is the text whose UTF-8 the bytes are, and there is one exactly
/// where they are valid.
pub proof fn lemma_decoded(v: VocabularyView, ids: Seq<u32>, b: Seq<u8>)
    requires
        v.token_text(ids) is Ok,
        bpe::text_bytes(v.token_text(ids)->Ok_0) == Ok::<Seq<u8>, Seq<char>>(b),
    ensures
        v.decoded(ids) is Ok <==> valid_utf8(b),
        v.decoded(ids) matches Ok(t) ==> encode_utf8(t) == b,
{
    if valid_utf8(b) {
        decode_utf8_encode_utf8(b);
    }
}

} // verus!
