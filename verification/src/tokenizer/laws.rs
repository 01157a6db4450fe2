//! What encoding and decoding give together.
use crate::text;
use crate::tokenizer::bpe;
use crate::tokenizer::bpe::{ChunkView, VocabularyView};
use crate::tokenizer::words;
use vstd::prelude::*;
use vstd::utf8::*;

verus! {

/// UTF-8 of two strings in a row.
pub proof fn lemma_encode_concat(a: Seq<char>, b: Seq<char>)
    ensures
        encode_utf8(a + b) == encode_utf8(a) + encode_utf8(b),
    decreases a.len(),
{
    if a.len() == 0 {
        assert(a + b =~= b);
        assert(encode_utf8(a) + encode_utf8(b) =~= encode_utf8(b));
    } else {
        lemma_encode_concat(a.drop_first(), b);
        assert((a + b).drop_first() =~= a.drop_first() + b);
        let h = encode_scalar(a[0] as u32);
        assert(h + (encode_utf8(a.drop_first()) + encode_utf8(b)) =~= (h + encode_utf8(
            a.drop_first(),
        )) + encode_utf8(b));
    }
}

/// The byte-level alphabet applied to bytes.
pub open spec fn byte_chars(b: Seq<u8>) -> Seq<char> {
    Seq::new(b.len(), |i: int| bpe::byte_char(b[i]))
}

/// Decoding undoes the byte-level alphabet.
proof fn lemma_text_bytes_of_chars(b: Seq<u8>)
    ensures
        bpe::text_bytes(byte_chars(b)) == Ok::<Seq<u8>, Seq<char>>(b),
    decreases b.len(),
{
    let t = byte_chars(b);
    if b.len() > 0 {
        lemma_text_bytes_of_chars(b.drop_last());
        assert(t.drop_last() =~= byte_chars(b.drop_last()));
        bpe::lemma_byte_alphabet(b.last(), 'a');
        assert(b.drop_last().push(b.last()) =~= b);
    } else {
        assert(b =~= seq![]);
    }
}

/// Decoding of two texts in a row.
proof fn lemma_text_bytes_concat(s: Seq<char>, t: Seq<char>, x: Seq<u8>, y: Seq<u8>)
    requires
        bpe::text_bytes(s) == Ok::<Seq<u8>, Seq<char>>(x),
        bpe::text_bytes(t) == Ok::<Seq<u8>, Seq<char>>(y),
    ensures
        bpe::text_bytes(s + t) == Ok::<Seq<u8>, Seq<char>>(x + y),
    decreases t.len(),
{
    if t.len() == 0 {
        assert(s + t =~= s);
        assert(x + y =~= x);
    } else {
        let front = bpe::text_bytes(t.drop_last())->Ok_0;
        assert((s + t).drop_last() =~= s + t.drop_last());
        lemma_text_bytes_concat(s, t.drop_last(), x, front);
        assert((x + front).push(y.last()) =~= x + y);
    }
}

/// The symbols of a word in a row are its bytes in the byte-level alphabet.
proof fn lemma_byte_symbols(b: Seq<u8>)
    ensures
        bpe::concat(Seq::new(b.len(), |i: int| seq![bpe::byte_char(b[i])])) == byte_chars(b),
    decreases b.len(),
{
    let parts = Seq::new(b.len(), |i: int| seq![bpe::byte_char(b[i])]);
    if b.len() > 0 {
        let c = b.drop_last();
        lemma_byte_symbols(c);
        let front = Seq::new(c.len(), |i: int| seq![bpe::byte_char(c[i])]);
        assert(parts =~= front.push(seq![bpe::byte_char(b.last())]));
        bpe::lemma_concat_push(front, seq![bpe::byte_char(b.last())]);
        assert(byte_chars(c) + seq![bpe::byte_char(b.last())] =~= byte_chars(b));
    } else {
        assert(byte_chars(b) =~= seq![]);
    }
}

/// Whether each token is the one that its id stands for.
pub open spec fn ids_invert_vocab(v: VocabularyView) -> bool {
    forall|t: Seq<char>| #[trigger]
        v.vocab.contains_key(t) ==> v.vocab[t] < v.ids.len() && v.ids[v.vocab[t] as int] == t
}

/// Whether each added token decodes to its content.
pub open spec fn added_decode(v: VocabularyView) -> bool {
    forall|k: int|
        0 <= k < v.added.len() ==> {
            let (content, id) = #[trigger] v.added[k];
            &&& id < v.ids.len()
            &&& bpe::text_bytes(v.ids[id as int]) == Ok::<Seq<u8>, Seq<char>>(
                encode_utf8(content),
            )
        }
}

/// Whether the pattern cuts a piece into words without a rest.
pub open spec fn covers(pattern: Seq<char>, piece: Seq<char>) -> bool {
    words::matches_of(pattern, piece).1 is None && bpe::concat(
        words::matches_of(pattern, piece).0,
    ) == piece
}

/// Whether it does so for each piece of a text.
pub open spec fn covers_text(v: VocabularyView, pattern: Seq<char>, t: Seq<char>) -> bool {
    let chunks = bpe::chunks_from(t, 0, 0, v.added);
    forall|i: int|
        0 <= i < chunks.len() ==> (#[trigger] chunks[i] matches ChunkView::Text(s) ==> pieces_covered(
            pattern,
            bpe::digit_pieces(s),
        ))
}

pub open spec fn pieces_covered(pattern: Seq<char>, pieces: Seq<Seq<char>>) -> bool {
    forall|j: int| 0 <= j < pieces.len() ==> covers(pattern, #[trigger] pieces[j])
}

/// Whether ids stand for the bytes `b`.
pub open spec fn spells(v: VocabularyView, ids: Seq<u32>, b: Seq<u8>) -> bool {
    v.token_text(ids) matches Ok(t) && bpe::text_bytes(t) == Ok::<Seq<u8>, Seq<char>>(b)
}

proof fn lemma_token_text_concat(v: VocabularyView, x: Seq<u32>, y: Seq<u32>)
    requires
        v.token_text(x) is Ok,
        v.token_text(y) is Ok,
    ensures
        v.token_text(x + y) == Ok::<Seq<char>, Seq<char>>(
            v.token_text(x)->Ok_0 + v.token_text(y)->Ok_0,
        ),
    decreases y.len(),
{
    let s = v.token_text(x)->Ok_0;
    if y.len() == 0 {
        assert(x + y =~= x);
        assert(s + Seq::<char>::empty() =~= s);
    } else {
        lemma_token_text_concat(v, x, y.drop_last());
        assert((x + y).drop_last() =~= x + y.drop_last());
        let f = v.token_text(y.drop_last())->Ok_0;
        let last = v.ids[y.last() as int];
        assert((s + f) + last =~= s + (f + last));
    }
}

proof fn lemma_spells_concat(v: VocabularyView, x: Seq<u32>, y: Seq<u32>, a: Seq<u8>, b: Seq<u8>)
    requires
        spells(v, x, a),
        spells(v, y, b),
    ensures
        spells(v, x + y, a + b),
{
    lemma_token_text_concat(v, x, y);
    lemma_text_bytes_concat(v.token_text(x)->Ok_0, v.token_text(y)->Ok_0, a, b);
}

/// The ids of tokens stand for the tokens.
proof fn lemma_ids_of_tokens(v: VocabularyView, tokens: Seq<Seq<char>>)
    requires
        ids_invert_vocab(v),
        v.ids_of(tokens) is Ok,
    ensures
        v.token_text(v.ids_of(tokens)->Ok_0) == Ok::<Seq<char>, Seq<char>>(bpe::concat(tokens)),
    decreases tokens.len(),
{
    if tokens.len() > 0 {
        let front = tokens.drop_last();
        lemma_ids_of_tokens(v, front);
        let ids = v.ids_of(tokens)->Ok_0;
        assert(ids.drop_last() =~= v.ids_of(front)->Ok_0);
        assert(v.vocab.contains_key(tokens.last()));
        bpe::lemma_concat_push(front, tokens.last());
        assert(front.push(tokens.last()) =~= tokens);
    }
}

/// The ids of a word stand for its bytes.
proof fn lemma_word_spelled(v: VocabularyView, word: Seq<char>)
    requires
        ids_invert_vocab(v),
        v.word_ids(word) is Ok,
    ensures
        spells(v, v.word_ids(word)->Ok_0, encode_utf8(word)),
{
    let b = encode_utf8(word);
    let symbols = bpe::byte_symbols(word);
    bpe::lemma_merged_concat(symbols, v.ranks);
    lemma_ids_of_tokens(v, bpe::merged(symbols, v.ranks));
    lemma_byte_symbols(b);
    assert(symbols =~= Seq::new(b.len(), |i: int| seq![bpe::byte_char(b[i])]));
    lemma_text_bytes_of_chars(b);
}

proof fn lemma_words_spelled(v: VocabularyView, list: Seq<Seq<char>>)
    requires
        ids_invert_vocab(v),
        v.words_ids(list, None) is Ok,
    ensures
        spells(v, v.words_ids(list, None)->Ok_0, encode_utf8(bpe::concat(list))),
    decreases list.len(),
{
    if list.len() == 0 {
        assert(encode_utf8(bpe::concat(list)) =~= seq![]);
    } else {
        lemma_word_spelled(v, list[0]);
        lemma_words_spelled(v, list.skip(1));
        lemma_spells_concat(
            v,
            v.word_ids(list[0])->Ok_0,
            v.words_ids(list.skip(1), None)->Ok_0,
            encode_utf8(list[0]),
            encode_utf8(bpe::concat(list.skip(1))),
        );
        lemma_encode_concat(list[0], bpe::concat(list.skip(1)));
    }
}

proof fn lemma_pieces_spelled(v: VocabularyView, pattern: Seq<char>, pieces: Seq<Seq<char>>)
    requires
        ids_invert_vocab(v),
        pieces_covered(pattern, pieces),
        bpe::pieces_ids(v, pattern, pieces) is Ok,
    ensures
        spells(v, bpe::pieces_ids(v, pattern, pieces)->Ok_0, encode_utf8(bpe::concat(pieces))),
    decreases pieces.len(),
{
    if pieces.len() == 0 {
        assert(encode_utf8(bpe::concat(pieces)) =~= seq![]);
    } else {
        let rest = pieces.skip(1);
        let (w, fault) = words::matches_of(pattern, pieces[0]);
        assert(covers(pattern, pieces[0]));
        lemma_words_spelled(v, w);
        assert(pieces_covered(pattern, rest)) by {
            assert forall|j: int| 0 <= j < rest.len() implies covers(pattern, #[trigger] rest[j]) by {
                assert(covers(pattern, pieces[j + 1]));
            }
        }
        lemma_pieces_spelled(v, pattern, rest);
        lemma_spells_concat(
            v,
            v.words_ids(w, fault)->Ok_0,
            bpe::pieces_ids(v, pattern, rest)->Ok_0,
            encode_utf8(pieces[0]),
            encode_utf8(bpe::concat(rest)),
        );
        lemma_encode_concat(pieces[0], bpe::concat(rest));
    }
}

/// The text of a chunk, where `contents` gives that of an added token.
proof fn lemma_added_at_content(
    v: VocabularyView,
    t: Seq<char>,
    i: int,
    k: int,
)
    requires
        added_decode(v),
        0 <= k,
    ensures
        bpe::added_at(t, i, v.added, k) matches Some((c, id)) ==> id < v.ids.len() && bpe::text_bytes(
            v.ids[id as int],
        ) == Ok::<Seq<u8>, Seq<char>>(encode_utf8(c)),
    decreases v.added.len() - k,
{
    if k < v.added.len() {
        let (c, id) = v.added[k];
        if !(c.len() > 0 && text::occurs_at(t, c, i)) {
            lemma_added_at_content(v, t, i, k + 1);
        }
    }
}

/// Whether the pattern covers the text chunks among `chunks`.
spec fn chunks_covered(pattern: Seq<char>, chunks: Seq<ChunkView>) -> bool {
    forall|i: int|
        0 <= i < chunks.len() ==> (#[trigger] chunks[i] matches ChunkView::Text(s) ==> pieces_covered(
            pattern,
            bpe::digit_pieces(s),
        ))
}

proof fn lemma_chunks_tail(pattern: Seq<char>, chunks: Seq<ChunkView>, n: int)
    requires
        0 <= n <= chunks.len(),
        chunks_covered(pattern, chunks),
    ensures
        chunks_covered(pattern, chunks.skip(n)),
{
    let tail = chunks.skip(n);
    assert forall|i: int| 0 <= i < tail.len() implies (#[trigger] tail[i] matches ChunkView::Text(
        s,
    ) ==> pieces_covered(pattern, bpe::digit_pieces(s))) by {
        assert(tail[i] == chunks[i + n]);
    }
}

proof fn lemma_text_chunk(v: VocabularyView, pattern: Seq<char>, s: Seq<char>)
    requires
        ids_invert_vocab(v),
        pieces_covered(pattern, bpe::digit_pieces(s)),
        bpe::pieces_ids(v, pattern, bpe::digit_pieces(s)) is Ok,
    ensures
        spells(v, bpe::pieces_ids(v, pattern, bpe::digit_pieces(s))->Ok_0, encode_utf8(s)),
{
    lemma_pieces_spelled(v, pattern, bpe::digit_pieces(s));
    bpe::lemma_digit_pieces(s);
}

proof fn lemma_special_chunk(v: VocabularyView, id: u32, content: Seq<char>)
    requires
        id < v.ids.len(),
        bpe::text_bytes(v.ids[id as int]) == Ok::<Seq<u8>, Seq<char>>(encode_utf8(content)),
    ensures
        spells(v, seq![id], encode_utf8(content)),
{
    let one = seq![id];
    assert(one.drop_last() =~= seq![]);
    assert(v.token_text(one.drop_last()) == Ok::<Seq<char>, Seq<char>>(seq![]));
    assert(Seq::<char>::empty() + v.ids[id as int] =~= v.ids[id as int]);
}

/// The ids of the chunks from `i` on stand for the text from `start` on.
proof fn lemma_chunks_spelled(
    v: VocabularyView,
    pattern: Seq<char>,
    t: Seq<char>,
    start: int,
    i: int,
)
    requires
        ids_invert_vocab(v),
        added_decode(v),
        0 <= start <= i <= t.len(),
        chunks_covered(pattern, bpe::chunks_from(t, start, i, v.added)),
        bpe::chunks_ids(v, pattern, bpe::chunks_from(t, start, i, v.added)) is Ok,
    ensures
        spells(
            v,
            bpe::chunks_ids(v, pattern, bpe::chunks_from(t, start, i, v.added))->Ok_0,
            encode_utf8(t.skip(start)),
        ),
    decreases t.len() - i,
{
    let chunks = bpe::chunks_from(t, start, i, v.added);
    let ids = bpe::chunks_ids(v, pattern, chunks)->Ok_0;
    if i >= t.len() {
        if start < t.len() {
            let s = t.skip(start);
            assert(chunks[0] == ChunkView::Text(s));
            lemma_text_chunk(v, pattern, s);
            assert(chunks.skip(1) =~= seq![]);
            assert(bpe::chunks_ids(v, pattern, chunks.skip(1)) == Ok::<Seq<u32>, Seq<char>>(
                seq![],
            ));
            let x = bpe::pieces_ids(v, pattern, bpe::digit_pieces(s))->Ok_0;
            assert(x + Seq::<u32>::empty() =~= x);
        } else {
            assert(t.skip(start) =~= seq![]);
            assert(encode_utf8(t.skip(start)) =~= seq![]);
        }
    } else {
        bpe::lemma_added_at(t, i, v.added, 0);
        lemma_added_at_content(v, t, i, 0);
        match bpe::added_at(t, i, v.added, 0) {
            None => {
                lemma_chunks_spelled(v, pattern, t, start, i + 1);
            },
            Some((content, id)) => {
                let next = i + content.len();
                let tail = bpe::chunks_from(t, next, next, v.added);
                let special = seq![ChunkView::Special(id)] + tail;
                let from_i = t.skip(i);
                assert(from_i =~= content + t.skip(next)) by {
                    assert(t.subrange(i, next) == content);
                    assert(t.skip(i) =~= t.subrange(i, next) + t.skip(next));
                }
                if i > start {
                    let s = t.subrange(start, i);
                    assert(chunks =~= seq![ChunkView::Text(s)] + special);
                    assert(chunks[0] == ChunkView::Text(s));
                    assert(chunks.skip(1) =~= special);
                    lemma_chunks_tail(pattern, chunks, 1);
                    lemma_special_tail(v, pattern, t, i, content, id);
                    lemma_text_chunk(v, pattern, s);
                    lemma_spells_concat(
                        v,
                        bpe::pieces_ids(v, pattern, bpe::digit_pieces(s))->Ok_0,
                        bpe::chunks_ids(v, pattern, special)->Ok_0,
                        encode_utf8(s),
                        encode_utf8(from_i),
                    );
                    lemma_encode_concat(s, from_i);
                    assert(s + from_i =~= t.skip(start));
                } else {
                    assert(chunks =~= special);
                    lemma_special_tail(v, pattern, t, i, content, id);
                }
            },
        }
    }
}

/// An added token at `i` and what follows it.
proof fn lemma_special_tail(
    v: VocabularyView,
    pattern: Seq<char>,
    t: Seq<char>,
    i: int,
    content: Seq<char>,
    id: u32,
)
    requires
        ids_invert_vocab(v),
        added_decode(v),
        0 <= i < t.len(),
        content.len() > 0,
        text::occurs_at(t, content, i),
        id < v.ids.len(),
        bpe::text_bytes(v.ids[id as int]) == Ok::<Seq<u8>, Seq<char>>(encode_utf8(content)),
        ({
            let next = i + content.len();
            let special = seq![ChunkView::Special(id)] + bpe::chunks_from(t, next, next, v.added);
            chunks_covered(pattern, special) && bpe::chunks_ids(v, pattern, special) is Ok
        }),
    ensures
        ({
            let next = i + content.len();
            let special = seq![ChunkView::Special(id)] + bpe::chunks_from(t, next, next, v.added);
            spells(v, bpe::chunks_ids(v, pattern, special)->Ok_0, encode_utf8(t.skip(i)))
        }),
    decreases t.len() - i, 0int,
{
    let next = i + content.len();
    let tail = bpe::chunks_from(t, next, next, v.added);
    let special = seq![ChunkView::Special(id)] + tail;
    assert(special[0] == ChunkView::Special(id));
    assert(special.skip(1) =~= tail);
    lemma_chunks_tail(pattern, special, 1);
    lemma_chunks_spelled(v, pattern, t, next, next);
    lemma_special_chunk(v, id, content);
    lemma_spells_concat(
        v,
        seq![id],
        bpe::chunks_ids(v, pattern, tail)->Ok_0,
        encode_utf8(content),
        encode_utf8(t.skip(next)),
    );
    lemma_encode_concat(content, t.skip(next));
    assert(t.subrange(i, next) == content);
    assert(content + t.skip(next) =~= t.skip(i));
}

/// Decoding the ids of a text gives the text back, where each token is the one
/// of its id, each added token decodes to its content and the pattern leaves
/// out nothing of the text.
pub proof fn lemma_decode_encoded(v: VocabularyView, pattern: Seq<char>, t: Seq<char>)
    requires
        ids_invert_vocab(v),
        added_decode(v),
        covers_text(v, pattern, t),
        bpe::encoded(v, pattern, t) is Ok,
    ensures
        v.decoded(bpe::encoded(v, pattern, t)->Ok_0) == Ok::<Seq<char>, Seq<char>>(t),
{
    lemma_chunks_spelled(v, pattern, t, 0, 0);
    assert(t.skip(0) =~= t);
    encode_utf8_valid_utf8(t);
    encode_utf8_decode_utf8(t);
}


/// Whether no token of a list is longer than one before it.
pub open spec fn descending(s: Seq<(Seq<char>, u32)>) -> bool {
    forall|i: int, j: int|
        0 <= i < j < s.len() ==> bpe::byte_len(#[trigger] s[i]) >= bpe::byte_len(#[trigger] s[j])
}

proof fn lemma_longer(s: Seq<(Seq<char>, u32)>, n: nat)
    requires
        descending(s),
    ensures
        0 <= bpe::longer(s, n) <= s.len(),
        forall|i: int| 0 <= i < bpe::longer(s, n) ==> bpe::byte_len(#[trigger] s[i]) >= n,
        forall|i: int| bpe::longer(s, n) <= i < s.len() ==> bpe::byte_len(#[trigger] s[i]) < n,
    decreases s.len(),
{
    if s.len() > 0 {
        let t = s.skip(1);
        if bpe::byte_len(s[0]) >= n {
            assert(descending(t)) by {
                assert forall|i: int, j: int| 0 <= i < j < t.len() implies bpe::byte_len(
                    #[trigger] t[i],
                ) >= bpe::byte_len(#[trigger] t[j]) by {
                    assert(t[i] == s[i + 1] && t[j] == s[j + 1]);
                }
            }
            lemma_longer(t, n);
            let k = bpe::longer(s, n);
            assert forall|i: int| 0 <= i < k implies bpe::byte_len(#[trigger] s[i]) >= n by {
                if i > 0 {
                    assert(s[i] == t[i - 1]);
                }
            }
            assert forall|i: int| k <= i < s.len() implies bpe::byte_len(#[trigger] s[i]) < n by {
                assert(s[i] == t[i - 1]);
            }
        } else {
            assert forall|i: int| 0 <= i < s.len() implies bpe::byte_len(#[trigger] s[i]) < n by {
                if i > 0 {
                    assert(bpe::byte_len(s[0]) >= bpe::byte_len(s[i]));
                }
            }
        }
    }
}

/// Sorting puts the longest tokens first and keeps all of them.
pub proof fn lemma_longest_first(s: Seq<(Seq<char>, u32)>)
    ensures
        descending(bpe::longest_first(s)),
        bpe::longest_first(s).to_multiset() == s.to_multiset(),
    decreases s.len(),
{
    if s.len() > 0 {
        let front = bpe::longest_first(s.drop_last());
        let x = s.last();
        let n = bpe::byte_len(x);
        lemma_longest_first(s.drop_last());
        lemma_longer(front, n);
        let k = bpe::longer(front, n);
        let r = front.insert(k, x);
        assert forall|i: int, j: int| 0 <= i < j < r.len() implies bpe::byte_len(#[trigger] r[i])
            >= bpe::byte_len(#[trigger] r[j]) by {
            let a = if i < k {
                i
            } else {
                i - 1
            };
            let b = if j < k {
                j
            } else {
                j - 1
            };
            if i != k {
                assert(r[i] == front[a]);
            }
            if j != k {
                assert(r[j] == front[b]);
            }
        }
        assert(r.remove(k) =~= front);
        assert(r[k] == x);
        r.to_multiset_ensures();
        assert(r.to_multiset() =~= front.to_multiset().insert(x));
        assert(s =~= s.drop_last().push(x));
        s.drop_last().to_multiset_ensures();
    } else {
        assert(s =~= seq![]);
    }
}

/// At each position the longest added token that stands there is taken.
pub proof fn lemma_longest_match(t: Seq<char>, i: int, added: Seq<(Seq<char>, u32)>, k: int)
    requires
        descending(added),
        0 <= k < added.len(),
        added[k].0.len() > 0,
        text::occurs_at(t, added[k].0, i),
    ensures
        bpe::added_at(t, i, added, 0) matches Some(hit) && bpe::byte_len(hit) >= bpe::byte_len(
            added[k],
        ),
{
    lemma_longest_match_from(t, i, added, k, 0);
}

proof fn lemma_longest_match_from(
    t: Seq<char>,
    i: int,
    added: Seq<(Seq<char>, u32)>,
    k: int,
    from: int,
)
    requires
        descending(added),
        0 <= from <= k < added.len(),
        added[k].0.len() > 0,
        text::occurs_at(t, added[k].0, i),
    ensures
        bpe::added_at(t, i, added, from) matches Some(hit) && bpe::byte_len(hit) >= bpe::byte_len(
            added[k],
        ),
    decreases k - from,
{
    if added[from].0.len() > 0 && text::occurs_at(t, added[from].0, i) {
    } else {
        lemma_longest_match_from(t, i, added, k, from + 1);
    }
}

/// Whether neither a token nor an id occurs twice.
pub open spec fn one_to_one(pairs: Seq<(Seq<char>, u32)>) -> bool {
    forall|i: int, j: int|
        0 <= i < j < pairs.len() ==> (#[trigger] pairs[i]).0 != (#[trigger] pairs[j]).0 && pairs[i].1
            != pairs[j].1
}

proof fn lemma_vocab_map(pairs: Seq<(Seq<char>, u32)>, t: Seq<char>)
    requires
        one_to_one(pairs),
    ensures
        bpe::vocab_map(pairs).contains_key(t) ==> exists|i: int|
            0 <= i < pairs.len() && #[trigger] pairs[i] == (t, bpe::vocab_map(pairs)[t]),
    decreases pairs.len(),
{
    if pairs.len() > 0 {
        let front = pairs.drop_last();
        assert(one_to_one(front)) by {
            assert forall|i: int, j: int| 0 <= i < j < front.len() implies (#[trigger] front[i]).0
                != (#[trigger] front[j]).0 && front[i].1 != front[j].1 by {
                assert(front[i] == pairs[i] && front[j] == pairs[j]);
            }
        }
        lemma_vocab_map(front, t);
        if bpe::vocab_map(pairs).contains_key(t) {
            if t == pairs.last().0 {
                assert(pairs[pairs.len() - 1] == (t, bpe::vocab_map(pairs)[t]));
            } else {
                let i = choose|i: int|
                    0 <= i < front.len() && #[trigger] front[i] == (t, bpe::vocab_map(front)[t]);
                assert(pairs[i] == (t, bpe::vocab_map(pairs)[t]));
            }
        }
    }
}

proof fn lemma_token_with_id(pairs: Seq<(Seq<char>, u32)>, i: int)
    requires
        one_to_one(pairs),
        0 <= i < pairs.len(),
    ensures
        bpe::token_with_id(pairs, pairs[i].1 as int) == pairs[i].0,
        pairs[i].1 <= bpe::highest_id(pairs),
    decreases pairs.len(),
{
    let front = pairs.drop_last();
    if i < pairs.len() - 1 {
        assert(one_to_one(front)) by {
            assert forall|a: int, b: int| 0 <= a < b < front.len() implies (#[trigger] front[a]).0
                != (#[trigger] front[b]).0 && front[a].1 != front[b].1 by {
                assert(front[a] == pairs[a] && front[b] == pairs[b]);
            }
        }
        assert(front[i] == pairs[i]);
        lemma_token_with_id(front, i);
        assert(pairs[i].1 != pairs[pairs.len() - 1].1);
    }
}

/// A vocabulary in which no id occurs twice gives each token back for its id.
pub proof fn lemma_loaded_ids_invert(pairs: Seq<(Seq<char>, u32)>, v: VocabularyView)
    requires
        one_to_one(pairs),
        v.vocab == bpe::vocab_map(pairs),
        v.ids == bpe::id_tokens(pairs),
    ensures
        ids_invert_vocab(v),
{
    assert forall|t: Seq<char>| #[trigger] v.vocab.contains_key(t) implies v.vocab[t] < v.ids.len()
        && v.ids[v.vocab[t] as int] == t by {
        lemma_vocab_map(pairs, t);
        let i = choose|i: int| 0 <= i < pairs.len() && #[trigger] pairs[i] == (t, v.vocab[t]);
        lemma_token_with_id(pairs, i);
    }
}

} // verus!
