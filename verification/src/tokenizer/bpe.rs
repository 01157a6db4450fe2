//! BPE encode/decode for the GPT-2-style family used by SmolLM:
//! `Sequence[Digits(individual_digits), ByteLevel]` pre-tokenizer,
//! byte-level BPE model, `ByteLevel` decoder, no normalizer.
//!
//! The loader validates the `tokenizer.json` recipe and refuses anything
//! else: silent mis-tokenization is worse than an error.
use crate::text;
use crate::tokenizer::json;
use crate::tokenizer::json::{Value, ValueView};
use crate::tokenizer::laws;
use crate::tokenizer::words;
use crate::tokenizer::words::GPT2_PATTERN;
use crate::widths;
use vstd::hash_map::StringHashMap;
use vstd::prelude::*;
use vstd::string::*;
use vstd::utf8::*;

verus! {

/// What is wrong with a tokenizer file, a text or a sequence of ids.
#[derive(Debug, Clone)]
pub struct Error(pub String);

impl View for Error {
    type V = Seq<char>;

    open spec fn view(&self) -> Seq<char> {
        self.0@
    }
}

impl Error {
    /// The error as one line of text.
    pub fn message(&self) -> (r: String)
        ensures
            r@ == "tokenizer: "@ + self@,
    {
        let mut s = "tokenizer: ".to_owned();
        s.append(self.0.as_str());
        s
    }
}

/// Whether a byte stands for itself in the byte-level alphabet.
pub open spec fn is_kept(b: u8) -> bool {
    0x21 <= b <= 0x7E || 0xA1 <= b <= 0xAC || 0xAE <= b
}

/// The character that stands for a byte: the printable ones stand for
/// themselves, the others are numbered from `U+0100` in ascending order.
pub open spec fn byte_char(b: u8) -> char {
    if is_kept(b) {
        b as char
    } else if b < 0x21 {
        (0x100 + b) as char
    } else if b < 0xA1 {
        (0x121 + (b - 0x7F)) as char
    } else {
        0x143 as char
    }
}

/// The byte that a character stands for.
pub open spec fn char_byte(c: char) -> Option<u8> {
    let v = c as u32;
    if v < 0x100 {
        if is_kept(v as u8) {
            Some(v as u8)
        } else {
            None
        }
    } else if v < 0x121 {
        Some((v - 0x100) as u8)
    } else if v < 0x143 {
        Some((v - 0x121 + 0x7F) as u8)
    } else if v == 0x143 {
        Some(0xAD)
    } else {
        None
    }
}

/// The byte-level alphabet has one character for each byte.
pub proof fn lemma_byte_alphabet(b: u8, c: char)
    ensures
        char_byte(byte_char(b)) == Some(b),
        char_byte(c) matches Some(x) ==> byte_char(x) == c,
{
}

/// GPT-2 byte to character table.
pub fn bytes_to_unicode() -> (r: Vec<char>)
    ensures
        r@.len() == 256,
        forall|b: u8| r@[b as int] == #[trigger] byte_char(b),
{
    let mut table: Vec<char> = Vec::new();
    let mut extra: u32 = 0x100;
    let mut b: u32 = 0;
    while b < 256
        invariant
            b <= 256,
            table@.len() == b,
            forall|i: int| 0 <= i < b ==> #[trigger] table@[i] == byte_char(i as u8),
            extra == (if b < 0x21 {
                0x100 + b
            } else if b < 0x7F {
                0x121int
            } else if b < 0xA1 {
                0x121 + (b - 0x7F)
            } else if b < 0xAE {
                0x143int
            } else {
                0x144int
            }),
        decreases 256 - b,
    {
        let kept = (b >= 0x21 && b <= 0x7E) || (b >= 0xA1 && b <= 0xAC) || b >= 0xAE;
        if kept {
            table.push(b as u8 as char);
        } else {
            match char::from_u32(extra) {
                Some(c) => {
                    proof {
                        char_u32_cast(c, extra);
                    }
                    table.push(c);
                },
                None => {
                    assert(false);
                },
            }
            extra = extra + 1;
        }
        b = b + 1;
    }
    assert forall|b: u8| table@[b as int] == #[trigger] byte_char(b) by {
        assert(table@[b as int] == byte_char(b as int as u8));
    }
    table
}

/// The byte that a character of the byte-level alphabet stands for.
pub fn unicode_to_byte(c: char) -> (r: Option<u8>)
    ensures
        r == char_byte(c),
{
    let v: u32 = c as u32;
    if v < 0x100 {
        if (v >= 0x21 && v <= 0x7E) || (v >= 0xA1 && v <= 0xAC) || v >= 0xAE {
            Some(v as u8)
        } else {
            None
        }
    } else if v < 0x121 {
        Some((v - 0x100) as u8)
    } else if v < 0x143 {
        Some((v - 0x121 + 0x7F) as u8)
    } else if v == 0x143 {
        Some(0xAD)
    } else {
        None
    }
}

/// The position of the first ASCII digit of `s`, or its length.
pub open spec fn first_digit(s: Seq<char>) -> int
    decreases s.len(),
{
    if s.len() == 0 || text::is_digit(s[0]) {
        0
    } else {
        1 + first_digit(s.skip(1))
    }
}

/// Digits one by one, and the runs between them.
pub open spec fn digit_pieces(s: Seq<char>) -> Seq<Seq<char>>
    decreases s.len(),
{
    if s.len() == 0 {
        seq![]
    } else if text::is_digit(s[0]) {
        seq![s.take(1)] + digit_pieces(s.skip(1))
    } else {
        let n = first_digit(s);
        if 0 < n <= s.len() {
            seq![s.take(n)] + digit_pieces(s.skip(n))
        } else {
            seq![]
        }
    }
}

pub proof fn lemma_first_digit(s: Seq<char>)
    ensures
        0 <= first_digit(s) <= s.len(),
        s.len() > 0 && !text::is_digit(s[0]) ==> first_digit(s) > 0,
        forall|i: int| 0 <= i < first_digit(s) ==> !text::is_digit(#[trigger] s[i]),
        first_digit(s) < s.len() ==> text::is_digit(s[first_digit(s)]),
    decreases s.len(),
{
    if s.len() > 0 && !text::is_digit(s[0]) {
        let t = s.skip(1);
        lemma_first_digit(t);
        assert forall|i: int| 0 <= i < first_digit(s) implies !text::is_digit(#[trigger] s[i]) by {
            if i > 0 {
                assert(t[i - 1] == s[i]);
            }
        }
    }
}

/// The characters of several strings in a row.
pub open spec fn concat(parts: Seq<Seq<char>>) -> Seq<char>
    decreases parts.len(),
{
    if parts.len() == 0 {
        seq![]
    } else {
        parts[0] + concat(parts.skip(1))
    }
}

/// The pieces in a row are the string; none is empty, and a piece with a
/// digit is that digit alone.
pub proof fn lemma_digit_pieces(s: Seq<char>)
    ensures
        concat(digit_pieces(s)) == s,
        forall|i: int|
            0 <= i < digit_pieces(s).len() ==> {
                let p = #[trigger] digit_pieces(s)[i];
                &&& p.len() > 0
                &&& forall|j: int| 0 <= j < p.len() && text::is_digit(p[j]) ==> p.len() == 1
            },
    decreases s.len(),
{
    let all = digit_pieces(s);
    if s.len() > 0 {
        lemma_first_digit(s);
        let n = if text::is_digit(s[0]) {
            1
        } else {
            first_digit(s)
        };
        let rest = digit_pieces(s.skip(n));
        lemma_digit_pieces(s.skip(n));
        assert(all =~= seq![s.take(n)] + rest);
        assert(all.skip(1) =~= rest);
        assert(s.take(n) + s.skip(n) =~= s);
        assert forall|i: int| 0 <= i < all.len() implies ({
            let p = #[trigger] all[i];
            &&& p.len() > 0
            &&& forall|j: int| 0 <= j < p.len() && text::is_digit(p[j]) ==> p.len() == 1
        }) by {
            if i > 0 {
                assert(all[i] == rest[i - 1]);
            } else {
                let p = s.take(n);
                assert forall|j: int| 0 <= j < p.len() && text::is_digit(p[j]) implies p.len()
                    == 1 by {
                    assert(p[j] == s[j]);
                }
            }
        }
    } else {
        assert(concat(all) =~= s);
    }
}

/// The models of strings.
pub open spec fn texts(v: Seq<String>) -> Seq<Seq<char>> {
    Seq::new(v.len(), |i: int| v[i]@)
}

pub open spec fn option_text(o: Option<String>) -> Option<Seq<char>> {
    match o {
        Some(s) => Some(s@),
        None => None,
    }
}

/// `Digits(individual_digits=true)`: "ab12" -> ["ab", "1", "2"].
///
/// Splits on ASCII digits.
pub fn split_digits(s: &str) -> (r: Vec<String>)
    ensures
        texts(r@) == digit_pieces(s@),
{
    let chars = text::char_vec(s);
    let total: usize = chars.len();
    let mut out: Vec<String> = Vec::new();
    let mut start: usize = 0;
    proof {
        assert(texts(out@) =~= seq![]);
        assert(s@.skip(0) =~= s@);
        assert(texts(out@) + digit_pieces(s@) =~= digit_pieces(s@));
    }
    while start < total
        invariant
            chars@ == s@,
            total == s@.len(),
            start <= total,
            texts(out@) + digit_pieces(s@.skip(start as int)) == digit_pieces(s@),
        decreases total - start,
    {
        let ghost before = texts(out@);
        let ghost rest = s@.skip(start as int);
        let mut end: usize = start + 1;
        if chars[start] < '0' || chars[start] > '9' {
            proof {
                assert(rest[0] == chars@[start as int]);
                assert(rest.skip(1) =~= s@.skip(start + 1));
            }
            while end < total && (chars[end] < '0' || chars[end] > '9')
                invariant
                    chars@ == s@,
                    total == s@.len(),
                    start < end <= total,
                    first_digit(rest) == end - start + first_digit(s@.skip(end as int)),
                decreases total - end,
            {
                proof {
                    let t = s@.skip(end as int);
                    assert(t[0] == s@[end as int]);
                    assert(t.skip(1) =~= s@.skip(end + 1));
                }
                end = end + 1;
            }
            proof {
                let t = s@.skip(end as int);
                if end < total {
                    assert(t[0] == s@[end as int]);
                }
                assert(first_digit(t) == 0);
            }
        }
        let piece = vstd::slice::slice_subrange(chars.as_slice(), start, end);
        out.push(text::string_of(piece));
        proof {
            let n = end - start;
            assert(rest[0] == s@[start as int]);
            assert(piece@ =~= rest.take(n));
            assert(rest.skip(n) =~= s@.skip(end as int));
            assert(texts(out@) =~= before.push(piece@));
            let more = digit_pieces(s@.skip(end as int));
            assert(digit_pieces(rest) == seq![piece@] + more);
            assert(before + (seq![piece@] + more) =~= texts(out@) + more);
        }
        start = end;
    }
    assert(s@.skip(start as int).len() == 0);
    assert(texts(out@) + Seq::<Seq<char>>::empty() =~= texts(out@));
    out
}

/// A part of a text: an added token, or text between added tokens.
pub enum Chunk {
    Special(u32),
    Text(String),
}

#[verifier::ext_equal]
pub enum ChunkView {
    Special(u32),
    Text(Seq<char>),
}

impl View for Chunk {
    type V = ChunkView;

    open spec fn view(&self) -> ChunkView {
        match self {
            Chunk::Special(id) => ChunkView::Special(*id),
            Chunk::Text(s) => ChunkView::Text(s@),
        }
    }
}

pub open spec fn chunk_views(v: Seq<Chunk>) -> Seq<ChunkView> {
    Seq::new(v.len(), |i: int| v[i]@)
}

/// The first added token from number `k` on that stands at position `i` of
/// the text. A token without characters never does.
pub open spec fn added_at(
    t: Seq<char>,
    i: int,
    added: Seq<(Seq<char>, u32)>,
    k: int,
) -> Option<(Seq<char>, u32)>
    decreases added.len() - k,
{
    if k < 0 || k >= added.len() {
        None
    } else if added[k].0.len() > 0 && text::occurs_at(t, added[k].0, i) {
        Some(added[k])
    } else {
        added_at(t, i, added, k + 1)
    }
}

pub proof fn lemma_added_at(t: Seq<char>, i: int, added: Seq<(Seq<char>, u32)>, k: int)
    ensures
        added_at(t, i, added, k) matches Some((c, _)) ==> c.len() > 0 && text::occurs_at(t, c, i),
    decreases added.len() - k,
{
    if 0 <= k < added.len() && !(added[k].0.len() > 0 && text::occurs_at(t, added[k].0, i)) {
        lemma_added_at(t, i, added, k + 1);
    }
}

/// The chunks of a text from `i` on, where no added token stands between
/// `start` and `i`.
pub open spec fn chunks_from(
    t: Seq<char>,
    start: int,
    i: int,
    added: Seq<(Seq<char>, u32)>,
) -> Seq<ChunkView>
    decreases t.len() - i,
{
    if i < 0 || i >= t.len() {
        if start < t.len() {
            seq![ChunkView::Text(t.skip(start))]
        } else {
            seq![]
        }
    } else {
        proof {
            lemma_added_at(t, i, added, 0);
        }
        match added_at(t, i, added, 0) {
            Some((content, id)) => {
                let next = i + content.len();
                let head = if i > start {
                    seq![ChunkView::Text(t.subrange(start, i))]
                } else {
                    seq![]
                };
                head + seq![ChunkView::Special(id)] + chunks_from(t, next, next, added)
            },
            None => chunks_from(t, start, i + 1, added),
        }
    }
}

/// The ranked pairs, by the two symbols with a blank between them.
pub open spec fn pair_rank(
    ranks: Map<Seq<char>, usize>,
    a: Seq<char>,
    b: Seq<char>,
) -> Option<usize> {
    let line = a + seq![' '] + b;
    if ranks.contains_key(line) {
        Some(ranks[line])
    } else {
        None
    }
}

/// The lowest rank among the first `n` adjacent pairs and its leftmost place.
pub open spec fn best_pair(
    symbols: Seq<Seq<char>>,
    ranks: Map<Seq<char>, usize>,
    n: int,
) -> Option<(usize, int)>
    decreases n,
{
    if n <= 0 {
        None
    } else {
        let before = best_pair(symbols, ranks, n - 1);
        match pair_rank(ranks, symbols[n - 1], symbols[n]) {
            Some(rank) => match before {
                Some((r, p)) => if rank < r {
                    Some((rank, n - 1))
                } else {
                    before
                },
                None => Some((rank, n - 1)),
            },
            None => before,
        }
    }
}

pub proof fn lemma_best_pair(symbols: Seq<Seq<char>>, ranks: Map<Seq<char>, usize>, n: int)
    ensures
        best_pair(symbols, ranks, n) matches Some((_, p)) ==> 0 <= p < n,
    decreases n,
{
    if n > 0 {
        lemma_best_pair(symbols, ranks, n - 1);
    }
}

/// The symbols with those at `p` and `p + 1` joined.
pub open spec fn join_at(symbols: Seq<Seq<char>>, p: int) -> Seq<Seq<char>> {
    symbols.take(p).push(symbols[p] + symbols[p + 1]) + symbols.skip(p + 2)
}

/// The symbols after joining the best pair until no pair is ranked.
pub open spec fn merged(symbols: Seq<Seq<char>>, ranks: Map<Seq<char>, usize>) -> Seq<Seq<char>>
    decreases symbols.len(),
{
    match best_pair(symbols, ranks, symbols.len() - 1) {
        None => symbols,
        Some((_, p)) => {
            proof {
                lemma_best_pair(symbols, ranks, symbols.len() - 1);
            }
            merged(join_at(symbols, p), ranks)
        },
    }
}

/// The characters of the byte-level alphabet for the bytes of a word.
pub open spec fn byte_symbols(word: Seq<char>) -> Seq<Seq<char>> {
    let b = encode_utf8(word);
    Seq::new(b.len(), |i: int| seq![byte_char(b[i])])
}

pub proof fn lemma_concat_push(parts: Seq<Seq<char>>, x: Seq<char>)
    ensures
        concat(parts.push(x)) == concat(parts) + x,
    decreases parts.len(),
{
    if parts.len() == 0 {
        reveal_with_fuel(concat, 2);
        assert(parts.push(x).skip(1) =~= seq![]);
        assert(concat(parts.push(x)) =~= concat(parts) + x);
    } else {
        lemma_concat_push(parts.skip(1), x);
        assert(parts.push(x).skip(1) =~= parts.skip(1).push(x));
        assert(concat(parts.push(x)) =~= concat(parts) + x);
    }
}

pub proof fn lemma_concat_add(a: Seq<Seq<char>>, b: Seq<Seq<char>>)
    ensures
        concat(a + b) == concat(a) + concat(b),
    decreases a.len(),
{
    if a.len() == 0 {
        assert(a + b =~= b);
        assert(concat(a) + concat(b) =~= concat(b));
    } else {
        lemma_concat_add(a.skip(1), b);
        assert((a + b).skip(1) =~= a.skip(1) + b);
        assert(a[0] + (concat(a.skip(1)) + concat(b)) =~= (a[0] + concat(a.skip(1))) + concat(b));
    }
}

/// Merging joins symbols and changes nothing else.
pub proof fn lemma_merged_concat(symbols: Seq<Seq<char>>, ranks: Map<Seq<char>, usize>)
    ensures
        concat(merged(symbols, ranks)) == concat(symbols),
        symbols.len() > 0 ==> merged(symbols, ranks).len() > 0,
    decreases symbols.len(),
{
    lemma_best_pair(symbols, ranks, symbols.len() - 1);
    if let Some((_, p)) = best_pair(symbols, ranks, symbols.len() - 1) {
        let j = join_at(symbols, p);
        lemma_merged_concat(j, ranks);
        let (head, tail) = (symbols.take(p), symbols.skip(p + 2));
        let (x, y) = (symbols[p], symbols[p + 1]);
        lemma_concat_add(head.push(x + y), tail);
        lemma_concat_push(head, x + y);
        assert(symbols =~= head.push(x).push(y) + tail);
        lemma_concat_add(head.push(x).push(y), tail);
        lemma_concat_push(head.push(x), y);
        lemma_concat_push(head, x);
        assert(concat(head) + (x + y) =~= (concat(head) + x) + y);
    }
}


/// Tokens and their ids, merge ranks, and the added tokens in the order in
/// which they are tried.
pub struct Vocabulary {
    vocab: StringHashMap<u32>,
    ids: Vec<String>,
    ranks: StringHashMap<usize>,
    added: Vec<(String, u32)>,
    byte_encoder: Vec<char>,
}

#[verifier::ext_equal]
pub struct VocabularyView {
    /// The id of each token.
    pub vocab: Map<Seq<char>, u32>,
    /// The token of each id.
    pub ids: Seq<Seq<char>>,
    /// The rank of each mergeable pair, written with a blank between.
    pub ranks: Map<Seq<char>, usize>,
    /// The added tokens, longest first.
    pub added: Seq<(Seq<char>, u32)>,
}

pub open spec fn added_views(v: Seq<(String, u32)>) -> Seq<(Seq<char>, u32)> {
    Seq::new(v.len(), |i: int| (v[i].0@, v[i].1))
}

impl View for Vocabulary {
    type V = VocabularyView;

    closed spec fn view(&self) -> VocabularyView {
        VocabularyView {
            vocab: self.vocab@,
            ids: texts(self.ids@),
            ranks: self.ranks@,
            added: added_views(self.added@),
        }
    }
}

impl VocabularyView {
    /// The id of a token.
    pub open spec fn id_of(self, token: Seq<char>) -> Result<u32, Seq<char>> {
        if self.vocab.contains_key(token) {
            Ok(self.vocab[token])
        } else {
            Err("token not in vocab: "@ + text::debug_quoted(token))
        }
    }

    /// The ids of tokens; the first that has none is an error.
    pub open spec fn ids_of(self, tokens: Seq<Seq<char>>) -> Result<Seq<u32>, Seq<char>>
        decreases tokens.len(),
    {
        if tokens.len() == 0 {
            Ok(seq![])
        } else {
            match self.ids_of(tokens.drop_last()) {
                Err(e) => Err(e),
                Ok(front) => match self.id_of(tokens.last()) {
                    Err(e) => Err(e),
                    Ok(id) => Ok(front.push(id)),
                },
            }
        }
    }

    /// The ids of a word of the pre-tokenizer.
    pub open spec fn word_ids(self, word: Seq<char>) -> Result<Seq<u32>, Seq<char>> {
        self.ids_of(merged(byte_symbols(word), self.ranks))
    }

    /// The ids of consecutive words, and then the error of the search for
    /// more of them.
    pub open spec fn words_ids(self, words: Seq<Seq<char>>, error: Option<Seq<char>>) -> Result<
        Seq<u32>,
        Seq<char>,
    >
        decreases words.len(),
    {
        if words.len() == 0 {
            match error {
                Some(e) => Err("regex: "@ + e),
                None => Ok(seq![]),
            }
        } else {
            match self.word_ids(words[0]) {
                Err(e) => Err(e),
                Ok(ids) => match self.words_ids(words.skip(1), error) {
                    Err(e) => Err(e),
                    Ok(rest) => Ok(ids + rest),
                },
            }
        }
    }

    /// The token characters of ids.
    pub open spec fn token_text(self, ids: Seq<u32>) -> Result<Seq<char>, Seq<char>>
        decreases ids.len(),
    {
        if ids.len() == 0 {
            Ok(seq![])
        } else {
            match self.token_text(ids.drop_last()) {
                Err(e) => Err(e),
                Ok(front) => if ids.last() < self.ids.len() {
                    Ok(front + self.ids[ids.last() as int])
                } else {
                    Err("unknown id "@ + text::decimal(ids.last() as nat))
                },
            }
        }
    }

    /// The text that ids stand for.
    pub open spec fn decoded(self, ids: Seq<u32>) -> Result<Seq<char>, Seq<char>> {
        match self.token_text(ids) {
            Err(e) => Err(e),
            Ok(t) => match text_bytes(t) {
                Err(e) => Err(e),
                Ok(b) => if valid_utf8(b) {
                    Ok(decode_utf8(b))
                } else {
                    Err("decode utf-8: "@ + text::utf8_fault(b))
                },
            },
        }
    }
}

/// The bytes that characters of the byte-level alphabet stand for.
pub open spec fn text_bytes(t: Seq<char>) -> Result<Seq<u8>, Seq<char>>
    decreases t.len(),
{
    if t.len() == 0 {
        Ok(seq![])
    } else {
        match text_bytes(t.drop_last()) {
            Err(e) => Err(e),
            Ok(front) => match char_byte(t.last()) {
                Some(b) => Ok(front.push(b)),
                None => Err("undecodable char "@ + text::debug_char(t.last())),
            },
        }
    }
}

/// The result of an operation and the model it stands for.
pub open spec fn ids_as(r: Result<Vec<u32>, Error>, want: Result<Seq<u32>, Seq<char>>) -> bool {
    match want {
        Ok(ids) => r matches Ok(v) && v@ == ids,
        Err(m) => r matches Err(e) && e@ == m,
    }
}

/// A prefix without an id leaves the whole without ids.
proof fn lemma_ids_of_prefix(v: VocabularyView, tokens: Seq<Seq<char>>, n: int)
    requires
        0 <= n <= tokens.len(),
    ensures
        v.ids_of(tokens.take(n)) matches Err(e) ==> v.ids_of(tokens) == Err::<
            Seq<u32>,
            Seq<char>,
        >(e),
    decreases tokens.len(),
{
    if n < tokens.len() {
        assert(tokens.drop_last().take(n) =~= tokens.take(n));
        lemma_ids_of_prefix(v, tokens.drop_last(), n);
    } else {
        assert(tokens.take(n) =~= tokens);
    }
}

proof fn lemma_token_text_prefix(v: VocabularyView, ids: Seq<u32>, n: int)
    requires
        0 <= n <= ids.len(),
    ensures
        v.token_text(ids.take(n)) matches Err(e) ==> v.token_text(ids) == Err::<
            Seq<char>,
            Seq<char>,
        >(e),
    decreases ids.len(),
{
    if n < ids.len() {
        assert(ids.drop_last().take(n) =~= ids.take(n));
        lemma_token_text_prefix(v, ids.drop_last(), n);
    } else {
        assert(ids.take(n) =~= ids);
    }
}

proof fn lemma_text_bytes_prefix(t: Seq<char>, n: int)
    requires
        0 <= n <= t.len(),
    ensures
        text_bytes(t.take(n)) matches Err(e) ==> text_bytes(t) == Err::<Seq<u8>, Seq<char>>(e),
    decreases t.len(),
{
    if n < t.len() {
        assert(t.drop_last().take(n) =~= t.take(n));
        lemma_text_bytes_prefix(t.drop_last(), n);
    } else {
        assert(t.take(n) =~= t);
    }
}

impl Vocabulary {
    pub closed spec fn wf(&self) -> bool {
        self.byte_encoder@.len() == 256 && forall|b: u8|
            self.byte_encoder@[b as int] == #[trigger] byte_char(b)
    }

    /// Number of ids.
    pub fn vocab_size(&self) -> (r: usize)
        ensures
            r == self@.ids.len(),
    {
        self.ids.len()
    }

    /// The id of a token.
    pub fn lookup(&self, token: &str) -> (r: Result<u32, Error>)
        ensures
            match self@.id_of(token@) {
                Ok(id) => r == Ok::<u32, Error>(id),
                Err(m) => r matches Err(e) && e@ == m,
            },
    {
        match self.vocab.get(token) {
            Some(id) => Ok(*id),
            None => {
                let mut m = "token not in vocab: ".to_owned();
                let q = text::debug_text(token);
                m.append(q.as_str());
                Err(Error(m))
            },
        }
    }

    /// The rank of a pair of symbols.
    fn rank(&self, a: &str, b: &str) -> (r: Option<usize>)
        ensures
            r == pair_rank(self@.ranks, a@, b@),
    {
        let mut line = a.to_owned();
        line.push(' ');
        line.append(b);
        assert(line@ =~= a@ + seq![' '] + b@);
        match self.ranks.get(line.as_str()) {
            Some(r) => Some(*r),
            None => None,
        }
    }

    /// The place of the lowest-rank adjacent pair.
    fn best(&self, symbols: &Vec<String>) -> (r: Option<usize>)
        ensures
            match r {
                Some(p) => best_pair(
                    texts(symbols@),
                    self@.ranks,
                    symbols@.len() - 1,
                ) matches Some((_, q)) && p == q && p + 1 < symbols@.len(),
                None => best_pair(texts(symbols@), self@.ranks, symbols@.len() - 1) is None,
            },
    {
        let ghost all = texts(symbols@);
        let mut best: Option<(usize, usize)> = None;
        let mut i: usize = 0;
        let total: usize = symbols.len();
        while i + 1 < total
            invariant
                total == symbols@.len(),
                i <= total,
                i + 1 <= total || i == 0,
                all == texts(symbols@),
                match best {
                    Some((rank, p)) => best_pair(all, self@.ranks, i as int) == Some(
                        (rank, p as int),
                    ) && p < i,
                    None => best_pair(all, self@.ranks, i as int) is None,
                },
            decreases total - i,
        {
            match self.rank(symbols[i].as_str(), symbols[i + 1].as_str()) {
                Some(rank) => {
                    let better = match best {
                        Some((r, _)) => rank < r,
                        None => true,
                    };
                    if better {
                        best = Some((rank, i));
                    }
                },
                None => {},
            }
            i = i + 1;
        }
        proof {
            if total == 0 {
                assert(best_pair(all, self@.ranks, -1) is None);
            }
        }
        match best {
            Some((_, p)) => Some(p),
            None => None,
        }
    }

    /// BPE-merges one word of the pre-tokenizer to ids.
    pub fn bpe_word(&self, word: &str) -> (r: Result<Vec<u32>, Error>)
        requires
            self.wf(),
        ensures
            ids_as(r, self@.word_ids(word@)),
    {
        // Map UTF-8 bytes through the byte-level alphabet.
        let b: &[u8] = word.as_bytes();
        let mut symbols: Vec<String> = Vec::new();
        let mut i: usize = 0;
        while i < b.len()
            invariant
                self.wf(),
                b@ == encode_utf8(word@),
                i <= b@.len(),
                texts(symbols@) == byte_symbols(word@).take(i as int),
            decreases b@.len() - i,
        {
            let mut c = String::new();
            c.push(self.byte_encoder[b[i] as usize]);
            proof {
                assert(self.byte_encoder@[b@[i as int] as int] == byte_char(b@[i as int]));
                assert(c@ =~= seq![byte_char(b@[i as int])]);
            }
            let ghost before = texts(symbols@);
            let ghost cv = c@;
            symbols.push(c);
            assert(texts(symbols@) =~= before.push(cv));
            assert(byte_symbols(word@)[i as int] == cv);
            assert(texts(symbols@) =~= byte_symbols(word@).take(i + 1));
            i = i + 1;
        }
        assert(byte_symbols(word@).take(i as int) =~= byte_symbols(word@));
        loop
            invariant
                merged(texts(symbols@), self@.ranks) == merged(byte_symbols(word@), self@.ranks),
            ensures
                texts(symbols@) == merged(byte_symbols(word@), self@.ranks),
            decreases symbols@.len(),
        {
            match self.best(&symbols) {
                None => {
                    break ;
                },
                Some(p) => {
                    let ghost all = texts(symbols@);
                    let count: usize = symbols.len();
                    let mut pair = symbols[p].clone();
                    pair.append(symbols[p + 1].as_str());
                    symbols.set(p, pair);
                    let _ = symbols.remove(p + 1);
                    assert(texts(symbols@) =~= join_at(all, p as int));
                },
            }
        }
        let ghost tokens = texts(symbols@);
        let mut out: Vec<u32> = Vec::new();
        let mut k: usize = 0;
        assert(tokens.take(0) =~= seq![]);
        assert(out@ =~= seq![]);
        while k < symbols.len()
            invariant
                k <= symbols@.len(),
                tokens == texts(symbols@),
                self@.ids_of(tokens.take(k as int)) == Ok::<Seq<u32>, Seq<char>>(out@),
                self@.word_ids(word@) == self@.ids_of(tokens),
            decreases symbols@.len() - k,
        {
            proof {
                let t = tokens.take(k + 1);
                assert(t.drop_last() =~= tokens.take(k as int));
                assert(t.last() == symbols@[k as int]@);
                lemma_ids_of_prefix(self@, tokens, k + 1);
            }
            match self.lookup(symbols[k].as_str()) {
                Ok(id) => {
                    out.push(id);
                },
                Err(e) => {
                    return Err(e);
                },
            }
            k = k + 1;
        }
        assert(tokens.take(k as int) =~= tokens);
        Ok(out)
    }

    /// Encodes the words found in a piece of text. `error` is what ended the
    /// search for more of them.
    pub fn encode_words(&self, words: &Vec<String>, error: &Option<String>) -> (r: Result<
        Vec<u32>,
        Error,
    >)
        requires
            self.wf(),
        ensures
            ids_as(
                r,
                self@.words_ids(texts(words@), option_text(*error)),
            ),
    {
        let ghost all = texts(words@);
        let ghost fault = option_text(*error);
        let mut out: Vec<u32> = Vec::new();
        let mut i: usize = 0;
        proof {
            assert(all.skip(0) =~= all);
            assert(out@ =~= seq![]);
            if let Ok(s) = self@.words_ids(all, fault) {
                assert(out@ + s =~= s);
            }
        }
        while i < words.len()
            invariant
                self.wf(),
                i <= words@.len(),
                all == texts(words@),
                fault == option_text(*error),
                match self@.words_ids(all.skip(i as int), fault) {
                    Ok(s) => self@.words_ids(all, fault) == Ok::<Seq<u32>, Seq<char>>(out@ + s),
                    Err(e) => self@.words_ids(all, fault) == Err::<Seq<u32>, Seq<char>>(e),
                },
            decreases words@.len() - i,
        {
            let ghost before = out@;
            assert(all.skip(i as int)[0] == words@[i as int]@);
            assert(all.skip(i as int).skip(1) =~= all.skip(i + 1));
            match self.bpe_word(words[i].as_str()) {
                Err(e) => {
                    return Err(e);
                },
                Ok(ids) => {
                    out.extend_from_slice(ids.as_slice());
                    proof {
                        assert(out@ =~= before + ids@);
                        if let Ok(s) = self@.words_ids(all.skip(i + 1), fault) {
                            assert(before + (ids@ + s) =~= out@ + s);
                        }
                    }
                },
            }
            i = i + 1;
        }
        assert(all.skip(i as int).len() == 0);
        match error {
            Some(e) => {
                let mut m = "regex: ".to_owned();
                m.append(e.as_str());
                Err(Error(m))
            },
            None => {
                assert(out@ + Seq::<u32>::empty() =~= out@);
                Ok(out)
            },
        }
    }

    /// Detokenizes ids (ByteLevel decoder).
    pub fn decode(&self, ids: &[u32]) -> (r: Result<String, Error>)
        ensures
            match self@.decoded(ids@) {
                Ok(t) => r matches Ok(s) && s@ == t,
                Err(m) => r matches Err(e) && e@ == m,
            },
    {
        let mut joined = String::new();
        let mut i: usize = 0;
        assert(ids@.take(0) =~= seq![]);
        assert(joined@ =~= seq![]);
        while i < ids.len()
            invariant
                i <= ids@.len(),
                self@.token_text(ids@.take(i as int)) == Ok::<Seq<char>, Seq<char>>(joined@),
            decreases ids@.len() - i,
        {
            proof {
                let t = ids@.take(i + 1);
                assert(t.drop_last() =~= ids@.take(i as int));
                lemma_token_text_prefix(self@, ids@, i + 1);
            }
            let id: u32 = ids[i];
            if (id as u64) < self.ids.len() as u64 {
                joined.append(self.ids[id as usize].as_str());
            } else {
                let mut m = "unknown id ".to_owned();
                text::push_decimal(&mut m, id as u64);
                return Err(Error(m));
            }
            i = i + 1;
        }
        assert(ids@.take(i as int) =~= ids@);
        let chars = text::char_vec(joined.as_str());
        let mut raw: Vec<u8> = Vec::new();
        let mut k: usize = 0;
        assert(chars@.take(0) =~= seq![]);
        assert(raw@ =~= seq![]);
        while k < chars.len()
            invariant
                k <= chars@.len(),
                self@.token_text(ids@) == Ok::<Seq<char>, Seq<char>>(chars@),
                text_bytes(chars@.take(k as int)) == Ok::<Seq<u8>, Seq<char>>(raw@),
            decreases chars@.len() - k,
        {
            proof {
                let t = chars@.take(k + 1);
                assert(t.drop_last() =~= chars@.take(k as int));
                lemma_text_bytes_prefix(chars@, k + 1);
            }
            match unicode_to_byte(chars[k]) {
                Some(b) => {
                    raw.push(b);
                },
                None => {
                    let mut m = "undecodable char ".to_owned();
                    let q = text::debug_char_text(chars[k]);
                    m.append(q.as_str());
                    return Err(Error(m));
                },
            }
            k = k + 1;
        }
        assert(chars@.take(k as int) =~= chars@);
        match text::utf8_string(raw) {
            Ok(s) => Ok(s),
            Err(why) => {
                let mut m = "decode utf-8: ".to_owned();
                m.append(why.as_str());
                Err(Error(m))
            },
        }
    }

    /// Splits off special added tokens (longest match at each position).
    pub fn split_added(&self, t: &str) -> (r: Vec<Chunk>)
        ensures
            chunk_views(r@) == chunks_from(t@, 0, 0, self@.added),
    {
        let chars = text::char_vec(t);
        let total: usize = chars.len();
        let mut contents: Vec<Vec<char>> = Vec::new();
        let mut n: usize = 0;
        while n < self.added.len()
            invariant
                n <= self.added@.len(),
                contents@.len() == n,
                forall|j: int| 0 <= j < n ==> (#[trigger] contents@[j])@ == self.added@[j].0@,
            decreases self.added@.len() - n,
        {
            contents.push(text::char_vec(self.added[n].0.as_str()));
            n = n + 1;
        }
        let ghost added = self@.added;
        let ghost want = chunks_from(t@, 0, 0, added);
        let mut out: Vec<Chunk> = Vec::new();
        let mut i: usize = 0;
        let mut start: usize = 0;
        assert(chunk_views(out@) =~= seq![]);
        assert(chunk_views(out@) + want =~= want);
        while i < total
            invariant
                chars@ == t@,
                total == t@.len(),
                start <= i <= total,
                added == self@.added,
                want == chunks_from(t@, 0, 0, added),
                contents@.len() == self.added@.len(),
                forall|j: int|
                    0 <= j < contents@.len() ==> (#[trigger] contents@[j])@ == self.added@[j].0@,
                chunk_views(out@) + chunks_from(t@, start as int, i as int, added) == want,
            decreases total - i,
        {
            let mut hit: Option<(usize, u32)> = None;
            let mut k: usize = 0;
            while k < contents.len()
                invariant_except_break
                    hit is None,
                    added_at(t@, i as int, added, 0) == added_at(t@, i as int, added, k as int),
                invariant
                    chars@ == t@,
                    total == t@.len(),
                    i < total,
                    k <= contents@.len(),
                    added == self@.added,
                    contents@.len() == self.added@.len(),
                    forall|j: int|
                        0 <= j < contents@.len() ==> (#[trigger] contents@[j])@
                            == self.added@[j].0@,
                ensures
                    match hit {
                        Some((len, id)) => added_at(t@, i as int, added, 0) matches Some((c, x))
                            && c.len() == len && x == id,
                        None => added_at(t@, i as int, added, 0) is None,
                    },
                decreases contents@.len() - k,
            {
                let c = contents[k].as_slice();
                assert(added[k as int].0 == c@);
                if c.len() > 0 && text::stands_at(chars.as_slice(), c, i) {
                    hit = Some((c.len(), self.added[k].1));
                    break ;
                }
                k = k + 1;
            }
            proof {
                lemma_added_at(t@, i as int, added, 0);
            }
            match hit {
                Some((len, id)) => {
                    let ghost before = chunk_views(out@);
                    let ghost next = i + len;
                    let ghost head = if i > start {
                        seq![ChunkView::Text(t@.subrange(start as int, i as int))]
                    } else {
                        seq![]
                    };
                    if i > start {
                        let s = vstd::slice::slice_subrange(chars.as_slice(), start, i);
                        out.push(Chunk::Text(text::string_of(s)));
                    }
                    assert(chunk_views(out@) =~= before + head);
                    out.push(Chunk::Special(id));
                    proof {
                        let tail = chunks_from(t@, next, next, added);
                        let one = seq![ChunkView::Special(id)];
                        assert(chunk_views(out@) =~= before + head + one);
                        assert(before + (head + one + tail) =~= chunk_views(out@) + tail);
                    }
                    i = i + len;
                    start = i;
                },
                None => {
                    i = i + 1;
                },
            }
        }
        let ghost before = chunk_views(out@);
        if start < total {
            let s = vstd::slice::slice_subrange(chars.as_slice(), start, total);
            out.push(Chunk::Text(text::string_of(s)));
            proof {
                assert(s@ =~= t@.skip(start as int));
                assert(chunk_views(out@) =~= before + seq![ChunkView::Text(s@)]);
            }
        } else {
            assert(before + Seq::<ChunkView>::empty() =~= before);
        }
        out
    }
}


/// Whether the `type` member of a value is `word`.
pub open spec fn has_type(v: ValueView, word: Seq<char>) -> bool {
    v.member("type"@) == Some(ValueView::String(word))
}

/// Whether the parts of a pre-tokenizer are the supported ones.
pub open spec fn supported_parts(parts: Seq<ValueView>) -> bool {
    parts.len() == 2 && has_type(parts[0], "Digits"@) && parts[0].member("individual_digits"@)
        == Some(ValueView::Bool(true)) && has_type(parts[1], "ByteLevel"@)
}

/// What is unsupported about a recipe; the vocabulary is not looked at. A
/// recipe may leave the decoder out but not name another one.
pub open spec fn recipe_fault(v: ValueView) -> Option<Seq<char>> {
    match v.member("model"@) {
        None => Some("no model"@),
        Some(model) => if !has_type(model, "BPE"@) {
            Some("model.type != BPE"@)
        } else {
            match v.member("pre_tokenizer"@) {
                None => Some("no pre_tokenizer"@),
                Some(pre) => if !has_type(pre, "Sequence"@) {
                    Some("pre_tokenizer.type != Sequence"@)
                } else {
                    match pre.member("pretokenizers"@) {
                        Some(ValueView::Array(parts)) => if !supported_parts(parts) {
                            Some("need Sequence[Digits(individual_digits), ByteLevel]"@)
                        } else if v.member("normalizer"@) != Some(ValueView::Null) {
                            Some("normalizer must be null"@)
                        } else if v.member("decoder"@) matches Some(d) && !has_type(d, "ByteLevel"@) {
                            Some("decoder.type != ByteLevel"@)
                        } else {
                            None
                        },
                        _ => Some("no pretokenizers"@),
                    }
                },
            }
        },
    }
}

/// The tokens and ids of the first `n` members of a vocabulary.
pub open spec fn vocab_pairs(m: Seq<(Seq<char>, ValueView)>, n: int) -> Option<
    Seq<(Seq<char>, u32)>,
>
    decreases n,
{
    if n <= 0 {
        Some(seq![])
    } else {
        match (vocab_pairs(m, n - 1), m[n - 1].1) {
            (Some(front), ValueView::Number(x)) => Some(
                front.push((m[n - 1].0, widths::truncated_u32(x))),
            ),
            _ => None,
        }
    }
}

/// The id of each token.
pub open spec fn vocab_map(pairs: Seq<(Seq<char>, u32)>) -> Map<Seq<char>, u32>
    decreases pairs.len(),
{
    if pairs.len() == 0 {
        Map::empty()
    } else {
        vocab_map(pairs.drop_last()).insert(pairs.last().0, pairs.last().1)
    }
}

/// The highest id, zero if there is none.
pub open spec fn highest_id(pairs: Seq<(Seq<char>, u32)>) -> u32
    decreases pairs.len(),
{
    if pairs.len() == 0 {
        0
    } else {
        let before = highest_id(pairs.drop_last());
        if pairs.last().1 > before {
            pairs.last().1
        } else {
            before
        }
    }
}

/// The last token with this id, the empty string if there is none.
pub open spec fn token_with_id(pairs: Seq<(Seq<char>, u32)>, id: int) -> Seq<char>
    decreases pairs.len(),
{
    if pairs.len() == 0 {
        seq![]
    } else if pairs.last().1 == id {
        pairs.last().0
    } else {
        token_with_id(pairs.drop_last(), id)
    }
}

/// The token of each id up to the highest.
pub open spec fn id_tokens(pairs: Seq<(Seq<char>, u32)>) -> Seq<Seq<char>> {
    Seq::new(highest_id(pairs) as nat + 1, |i: int| token_with_id(pairs, i))
}

/// Whether a line consists of two parts with a blank between them.
pub open spec fn is_merge_line(line: Seq<char>) -> bool {
    match text::position(line, ' ') {
        Some(i) => text::position(line.skip(i + 1), ' ') is None,
        None => false,
    }
}

/// The ranks of the first `n` merges; a repeated merge takes the later rank.
pub open spec fn merge_ranks(a: Seq<ValueView>, n: int) -> Result<
    Map<Seq<char>, usize>,
    Seq<char>,
>
    decreases n,
{
    if n <= 0 {
        Ok(Map::empty())
    } else {
        match merge_ranks(a, n - 1) {
            Err(e) => Err(e),
            Ok(front) => match a[n - 1] {
                ValueView::String(line) => if is_merge_line(line) {
                    Ok(front.insert(line, (n - 1) as usize))
                } else {
                    Err("bad merge line"@)
                },
                _ => Err("merge not a string"@),
            },
        }
    }
}

/// An added token.
pub open spec fn added_token(v: ValueView) -> Result<(Seq<char>, u32), Seq<char>> {
    match v.member("id"@) {
        Some(ValueView::Number(x)) => match v.member("content"@) {
            Some(ValueView::String(s)) => Ok((s, widths::truncated_u32(x))),
            _ => Err("added token without content"@),
        },
        _ => Err("added token without numeric id"@),
    }
}

/// The first `n` added tokens, in document order.
pub open spec fn added_tokens(a: Seq<ValueView>, n: int) -> Result<
    Seq<(Seq<char>, u32)>,
    Seq<char>,
>
    decreases n,
{
    if n <= 0 {
        Ok(seq![])
    } else {
        match added_tokens(a, n - 1) {
            Err(e) => Err(e),
            Ok(front) => match added_token(a[n - 1]) {
                Err(e) => Err(e),
                Ok(t) => Ok(front.push(t)),
            },
        }
    }
}

/// The number of bytes of an added token.
pub open spec fn byte_len(t: (Seq<char>, u32)) -> nat {
    encode_utf8(t.0).len()
}

/// How many of the leading tokens are at least `n` bytes long.
pub open spec fn longer(s: Seq<(Seq<char>, u32)>, n: nat) -> int
    decreases s.len(),
{
    if s.len() > 0 && byte_len(s[0]) >= n {
        1 + longer(s.skip(1), n)
    } else {
        0
    }
}

/// The tokens longest first; tokens of one length keep their order.
pub open spec fn longest_first(s: Seq<(Seq<char>, u32)>) -> Seq<(Seq<char>, u32)>
    decreases s.len(),
{
    if s.len() == 0 {
        seq![]
    } else {
        let front = longest_first(s.drop_last());
        front.insert(longer(front, byte_len(s.last())), s.last())
    }
}

/// The vocabulary in a `tokenizer.json` document, or what is unsupported.
pub open spec fn loaded(v: ValueView) -> Result<VocabularyView, Seq<char>> {
    match recipe_fault(v) {
        Some(m) => Err(m),
        None => {
            let model = v.member("model"@)->0;
            match model.member("vocab"@) {
                Some(ValueView::Object(m)) => match vocab_pairs(m, m.len() as int) {
                    None => Err("vocab id not a number"@),
                    Some(pairs) => {
                        let ranks = match model.member("merges"@) {
                            Some(ValueView::Array(a)) => merge_ranks(a, a.len() as int),
                            _ => Ok(Map::empty()),
                        };
                        let added = match v.member("added_tokens"@) {
                            Some(ValueView::Array(a)) => added_tokens(a, a.len() as int),
                            _ => Ok(seq![]),
                        };
                        match (ranks, added) {
                            (Err(e), _) => Err(e),
                            (Ok(_), Err(e)) => Err(e),
                            (Ok(r), Ok(a)) => Ok(
                                VocabularyView {
                                    vocab: vocab_map(pairs),
                                    ids: id_tokens(pairs),
                                    ranks: r,
                                    added: longest_first(a),
                                },
                            ),
                        }
                    },
                },
                _ => Err("no model.vocab"@),
            }
        },
    }
}

pub open spec fn refused(m: Seq<char>) -> Seq<char> {
    "unsupported tokenizer.json recipe: "@ + m
}

fn refuse(msg: &str) -> (r: Error)
    ensures
        r@ == refused(msg@),
{
    let mut m = "unsupported tokenizer.json recipe: ".to_owned();
    m.append(msg);
    Error(m)
}

fn type_is(v: &Value, word: &str) -> (r: bool)
    ensures
        r == has_type(v.model(), word@),
{
    match v.get("type") {
        Some(t) => match t.as_str() {
            Some(s) => text::same_text(s, word),
            None => false,
        },
        None => false,
    }
}

/// Validates (not necessarily uses) the recipe.
fn check_recipe(v: &Value) -> (r: Result<(), Error>)
    ensures
        match recipe_fault(v.model()) {
            Some(m) => r matches Err(e) && e@ == refused(m),
            None => r is Ok && v.model().member("model"@) is Some,
        },
{
    let model: &Value = match v.get("model") {
        Some(m) => m,
        None => {
            return Err(refuse("no model"));
        },
    };
    if !type_is(model, "BPE") {
        return Err(refuse("model.type != BPE"));
    }
    let pre: &Value = match v.get("pre_tokenizer") {
        Some(p) => p,
        None => {
            return Err(refuse("no pre_tokenizer"));
        },
    };
    if !type_is(pre, "Sequence") {
        return Err(refuse("pre_tokenizer.type != Sequence"));
    }
    let parts: &[Value] = match pre.get("pretokenizers") {
        Some(p) => match p.as_array() {
            Some(a) => a,
            None => {
                return Err(refuse("no pretokenizers"));
            },
        },
        None => {
            return Err(refuse("no pretokenizers"));
        },
    };
    let individual = parts.len() == 2 && match parts[0].get("individual_digits") {
        Some(b) => match b.as_bool() {
            Some(x) => x,
            None => false,
        },
        None => false,
    };
    if parts.len() != 2 || !type_is(&parts[0], "Digits") || !individual || !type_is(
        &parts[1],
        "ByteLevel",
    ) {
        return Err(refuse("need Sequence[Digits(individual_digits), ByteLevel]"));
    }
    let null = match v.get("normalizer") {
        Some(n) => match n {
            Value::Null => true,
            _ => false,
        },
        None => false,
    };
    if !null {
        return Err(refuse("normalizer must be null"));
    }
    if let Some(d) = v.get("decoder") {
        if !type_is(d, "ByteLevel") {
            return Err(refuse("decoder.type != ByteLevel"));
        }
    }
    Ok(())
}

proof fn lemma_vocab_pairs_prefix(m: Seq<(Seq<char>, ValueView)>, n: int, k: int)
    requires
        0 <= n <= k <= m.len(),
    ensures
        vocab_pairs(m, n) is None ==> vocab_pairs(m, k) is None,
    decreases k - n,
{
    if n < k {
        lemma_vocab_pairs_prefix(m, n, k - 1);
    }
}

proof fn lemma_merge_ranks_prefix(a: Seq<ValueView>, n: int, k: int)
    requires
        0 <= n <= k <= a.len(),
    ensures
        merge_ranks(a, n) matches Err(e) ==> merge_ranks(a, k) == Err::<
            Map<Seq<char>, usize>,
            Seq<char>,
        >(e),
    decreases k - n,
{
    if n < k {
        lemma_merge_ranks_prefix(a, n, k - 1);
    }
}

proof fn lemma_added_tokens_prefix(a: Seq<ValueView>, n: int, k: int)
    requires
        0 <= n <= k <= a.len(),
    ensures
        added_tokens(a, n) matches Err(e) ==> added_tokens(a, k) == Err::<
            Seq<(Seq<char>, u32)>,
            Seq<char>,
        >(e),
    decreases k - n,
{
    if n < k {
        lemma_added_tokens_prefix(a, n, k - 1);
    }
}

/// Reads the members of a vocabulary as tokens and ids.
fn read_pairs(m: &Vec<(String, Value)>) -> (r: Option<Vec<(String, u32)>>)
    ensures
        match r {
            Some(v) => vocab_pairs(json::member_models(m@), m@.len() as int) == Some(
                added_views(v@),
            ),
            None => vocab_pairs(json::member_models(m@), m@.len() as int) is None,
        },
{
    let ghost mv = json::member_models(m@);
    let mut out: Vec<(String, u32)> = Vec::new();
    let mut i: usize = 0;
    assert(added_views(out@) =~= seq![]);
    while i < m.len()
        invariant
            i <= m@.len(),
            mv == json::member_models(m@),
            vocab_pairs(mv, i as int) == Some(added_views(out@)),
        decreases m@.len() - i,
    {
        proof {
            lemma_vocab_pairs_prefix(mv, i + 1, mv.len() as int);
        }
        let ghost before = added_views(out@);
        match &m[i].1 {
            Value::Number(n) => {
                let id: u32 = widths::f64_to_u32(*n);
                out.push((m[i].0.clone(), id));
                assert(added_views(out@) =~= before.push((mv[i as int].0, id)));
            },
            _ => {
                return None;
            },
        }
        i = i + 1;
    }
    Some(out)
}

/// The map from tokens to ids, and the tokens by id.
fn index_tokens(pairs: &Vec<(String, u32)>) -> (r: (StringHashMap<u32>, Vec<String>))
    ensures
        r.0@ == vocab_map(added_views(pairs@)),
        texts(r.1@) == id_tokens(added_views(pairs@)),
{
    let ghost pv = added_views(pairs@);
    let mut vocab: StringHashMap<u32> = StringHashMap::new();
    let mut top: u32 = 0;
    let mut i: usize = 0;
    assert(pv.take(0) =~= seq![]);
    while i < pairs.len()
        invariant
            i <= pairs@.len(),
            pv == added_views(pairs@),
            vocab@ == vocab_map(pv.take(i as int)),
            top == highest_id(pv.take(i as int)),
        decreases pairs@.len() - i,
    {
        proof {
            assert(pv.take(i + 1).drop_last() =~= pv.take(i as int));
            assert(pv.take(i + 1).last() == pv[i as int]);
        }
        let id: u32 = pairs[i].1;
        if id > top {
            top = id;
        }
        vocab.insert(pairs[i].0.clone(), id);
        i = i + 1;
    }
    assert(pv.take(i as int) =~= pv);
    let mut ids: Vec<String> = Vec::new();
    let mut n: u64 = 0;
    while n <= top as u64
        invariant
            n <= top + 1,
            ids@.len() == n,
            forall|j: int| 0 <= j < n ==> (#[trigger] ids@[j])@ == Seq::<char>::empty(),
        decreases top + 1 - n,
    {
        let e = String::new();
        assert(e@ =~= Seq::<char>::empty());
        ids.push(e);
        n = n + 1;
    }
    let mut k: usize = 0;
    assert(pv.take(0) =~= seq![]);
    while k < pairs.len()
        invariant
            k <= pairs@.len(),
            pv == added_views(pairs@),
            top == highest_id(pv),
            ids@.len() == top + 1,
            forall|j: int|
                0 <= j <= top ==> (#[trigger] ids@[j])@ == token_with_id(pv.take(k as int), j),
        decreases pairs@.len() - k,
    {
        proof {
            assert(pv.take(k + 1).drop_last() =~= pv.take(k as int));
            assert(pv.take(k + 1).last() == pv[k as int]);
            lemma_highest_id(pv, k as int);
        }
        let id: u32 = pairs[k].1;
        let size: usize = ids.len();
        ids.set(id as usize, pairs[k].0.clone());
        k = k + 1;
    }
    assert(pv.take(k as int) =~= pv);
    assert(texts(ids@) =~= id_tokens(pv));
    (vocab, ids)
}

proof fn lemma_highest_id(pairs: Seq<(Seq<char>, u32)>, i: int)
    requires
        0 <= i < pairs.len(),
    ensures
        pairs[i].1 <= highest_id(pairs),
    decreases pairs.len(),
{
    if i < pairs.len() - 1 {
        lemma_highest_id(pairs.drop_last(), i);
    }
}

/// Whether a line consists of two parts with a blank between them.
fn is_merge(line: &str) -> (r: bool)
    ensures
        r == is_merge_line(line@),
{
    let chars = text::char_vec(line);
    match text::find_char(chars.as_slice(), ' ') {
        None => false,
        Some(i) => {
            let total: usize = chars.len();
            let rest = vstd::slice::slice_subrange(chars.as_slice(), i + 1, total);
            assert(rest@ =~= line@.skip(i + 1));
            text::find_char(rest, ' ').is_none()
        },
    }
}

/// Reads the merges of a model.
fn read_ranks(model: &Value) -> (r: Result<StringHashMap<usize>, Error>)
    ensures
        ({
            let want = match model.model().member("merges"@) {
                Some(ValueView::Array(a)) => merge_ranks(a, a.len() as int),
                _ => Ok(Map::empty()),
            };
            match want {
                Ok(m) => r matches Ok(x) && x@ == m,
                Err(m) => r matches Err(e) && e@ == refused(m),
            }
        }),
{
    let mut ranks: StringHashMap<usize> = StringHashMap::new();
    let found: Option<&[Value]> = match model.get("merges") {
        Some(m) => m.as_array(),
        None => None,
    };
    let list: &[Value] = match found {
        Some(a) => a,
        None => {
            return Ok(ranks);
        },
    };
    let ghost lv = json::models(list@);
    let mut i: usize = 0;
    while i < list.len()
        invariant
            i <= list@.len(),
            lv == json::models(list@),
            model.model().member("merges"@) == Some(ValueView::Array(lv)),
            merge_ranks(lv, i as int) == Ok::<Map<Seq<char>, usize>, Seq<char>>(ranks@),
        decreases list@.len() - i,
    {
        proof {
            lemma_merge_ranks_prefix(lv, i + 1, lv.len() as int);
        }
        match list[i].as_str() {
            None => {
                return Err(refuse("merge not a string"));
            },
            Some(line) => {
                if !is_merge(line) {
                    return Err(refuse("bad merge line"));
                }
                ranks.insert(line.to_owned(), i);
            },
        }
        i = i + 1;
    }
    Ok(ranks)
}

/// Reads one added token.
fn read_added(v: &Value) -> (r: Result<(String, u32), Error>)
    ensures
        match added_token(v.model()) {
            Ok((s, id)) => r matches Ok((t, n)) && t@ == s && n == id,
            Err(m) => r matches Err(e) && e@ == refused(m),
        },
{
    let id: u32 = match v.get("id") {
        Some(x) => match x {
            Value::Number(n) => widths::f64_to_u32(*n),
            _ => {
                return Err(refuse("added token without numeric id"));
            },
        },
        None => {
            return Err(refuse("added token without numeric id"));
        },
    };
    let found: Option<&str> = match v.get("content") {
        Some(x) => x.as_str(),
        None => None,
    };
    match found {
        Some(s) => Ok((s.to_owned(), id)),
        None => Err(refuse("added token without content")),
    }
}

/// Puts a token behind all that are at least as long.
fn place_added(list: &mut Vec<(String, u32)>, token: (String, u32))
    ensures
        ({
            let before = added_views(old(list)@);
            let t = (token.0@, token.1);
            added_views(final(list)@) == before.insert(longer(before, byte_len(t)), t)
        }),
{
    let ghost before = added_views(list@);
    let ghost t = (token.0@, token.1);
    let n: usize = token.0.as_str().as_bytes().len();
    let mut i: usize = 0;
    assert(before.skip(0) =~= before);
    while i < list.len() && list[i].0.as_str().as_bytes().len() >= n
        invariant
            i <= list@.len(),
            before == added_views(list@),
            t == (token.0@, token.1),
            n == byte_len(t),
            longer(before, n as nat) == i + longer(before.skip(i as int), n as nat),
        decreases list@.len() - i,
    {
        proof {
            let rest = before.skip(i as int);
            assert(rest[0] == before[i as int]);
            assert(rest.skip(1) =~= before.skip(i + 1));
        }
        i = i + 1;
    }
    proof {
        let rest = before.skip(i as int);
        if i < list@.len() {
            assert(rest[0] == before[i as int]);
        }
        assert(longer(rest, n as nat) == 0);
    }
    list.insert(i, token);
    assert(added_views(list@) =~= before.insert(i as int, t));
}

/// Reads the added tokens of a document, longest first.
fn read_added_tokens(v: &Value) -> (r: Result<Vec<(String, u32)>, Error>)
    ensures
        ({
            let want = match v.model().member("added_tokens"@) {
                Some(ValueView::Array(a)) => added_tokens(a, a.len() as int),
                _ => Ok(seq![]),
            };
            match want {
                Ok(s) => r matches Ok(x) && added_views(x@) == longest_first(s),
                Err(m) => r matches Err(e) && e@ == refused(m),
            }
        }),
{
    let mut out: Vec<(String, u32)> = Vec::new();
    assert(added_views(out@) =~= seq![]);
    let found: Option<&[Value]> = match v.get("added_tokens") {
        Some(m) => m.as_array(),
        None => None,
    };
    let list: &[Value] = match found {
        Some(a) => a,
        None => {
            return Ok(out);
        },
    };
    let ghost lv = json::models(list@);
    let mut i: usize = 0;
    while i < list.len()
        invariant
            i <= list@.len(),
            lv == json::models(list@),
            v.model().member("added_tokens"@) == Some(ValueView::Array(lv)),
            added_tokens(lv, i as int) matches Ok(s) && added_views(out@) == longest_first(s),
        decreases list@.len() - i,
    {
        proof {
            lemma_added_tokens_prefix(lv, i + 1, lv.len() as int);
        }
        let ghost front = added_tokens(lv, i as int)->Ok_0;
        match read_added(&list[i]) {
            Err(e) => {
                return Err(e);
            },
            Ok(t) => {
                let ghost tv = (t.0@, t.1);
                place_added(&mut out, t);
                proof {
                    assert(front.push(tv).drop_last() =~= front);
                    assert(front.push(tv).last() == tv);
                }
            },
        }
        i = i + 1;
    }
    Ok(out)
}

impl Vocabulary {
    /// Reads the vocabulary of a parsed `tokenizer.json`, after checking that
    /// its recipe is the supported one.
    pub fn from_value(v: &Value) -> (r: Result<Vocabulary, Error>)
        ensures
            match loaded(v.model()) {
                Ok(m) => r matches Ok(x) && x@ == m && x.wf(),
                Err(m) => r matches Err(e) && e@ == refused(m),
            },
    {
        match check_recipe(v) {
            Ok(_) => {},
            Err(e) => {
                return Err(e);
            },
        }
        let model: &Value = match v.get("model") {
            Some(m) => m,
            None => {
                return Err(refuse("no model"));
            },
        };
        let members: &Vec<(String, Value)> = match model.get("vocab") {
            Some(x) => match x {
                Value::Object(m) => {
                    proof {
                        json::lemma_model_object(*m);
                    }
                    m
                },
                _ => {
                    return Err(refuse("no model.vocab"));
                },
            },
            None => {
                return Err(refuse("no model.vocab"));
            },
        };
        let pairs: Vec<(String, u32)> = match read_pairs(members) {
            Some(p) => p,
            None => {
                return Err(refuse("vocab id not a number"));
            },
        };
        let (vocab, ids) = index_tokens(&pairs);
        let ranks: StringHashMap<usize> = match read_ranks(model) {
            Ok(m) => m,
            Err(e) => {
                return Err(e);
            },
        };
        let added: Vec<(String, u32)> = match read_added_tokens(v) {
            Ok(a) => a,
            Err(e) => {
                return Err(e);
            },
        };
        Ok(Vocabulary { vocab, ids, ranks, added, byte_encoder: bytes_to_unicode() })
    }
}

/// `encode` of a whole text: added tokens are split off first and never
/// merged; what is between them is cut at digits and into words.
pub open spec fn encoded(v: VocabularyView, pattern: Seq<char>, t: Seq<char>) -> Result<
    Seq<u32>,
    Seq<char>,
> {
    chunks_ids(v, pattern, chunks_from(t, 0, 0, v.added))
}

/// The ids of chunks.
pub open spec fn chunks_ids(v: VocabularyView, pattern: Seq<char>, chunks: Seq<ChunkView>) -> Result<
    Seq<u32>,
    Seq<char>,
>
    decreases chunks.len(),
{
    if chunks.len() == 0 {
        Ok(seq![])
    } else {
        let first = match chunks[0] {
            ChunkView::Special(id) => Ok(seq![id]),
            ChunkView::Text(s) => pieces_ids(v, pattern, digit_pieces(s)),
        };
        match first {
            Err(e) => Err(e),
            Ok(ids) => match chunks_ids(v, pattern, chunks.skip(1)) {
                Err(e) => Err(e),
                Ok(rest) => Ok(ids + rest),
            },
        }
    }
}

/// The ids of pieces without added tokens.
pub open spec fn pieces_ids(
    v: VocabularyView,
    pattern: Seq<char>,
    pieces: Seq<Seq<char>>,
) -> Result<Seq<u32>, Seq<char>>
    decreases pieces.len(),
{
    if pieces.len() == 0 {
        Ok(seq![])
    } else {
        let (words, fault) = words::matches_of(pattern, pieces[0]);
        match v.words_ids(words, fault) {
            Err(e) => Err(e),
            Ok(ids) => match pieces_ids(v, pattern, pieces.skip(1)) {
                Err(e) => Err(e),
                Ok(rest) => Ok(ids + rest),
            },
        }
    }
}

/// Words have ids only where the search for them did not fail.
proof fn lemma_words_without_fault(v: VocabularyView, list: Seq<Seq<char>>, fault: Option<Seq<char>>)
    ensures
        v.words_ids(list, fault) is Ok ==> fault is None,
    decreases list.len(),
{
    if list.len() > 0 {
        lemma_words_without_fault(v, list.skip(1), fault);
    }
}

/// A byte-level BPE tokenizer.
pub struct Tokenizer {
    vocabulary: Vocabulary,
    word_re: fancy_regex::Regex,
}

impl View for Tokenizer {
    type V = VocabularyView;

    closed spec fn view(&self) -> VocabularyView {
        self.vocabulary@
    }
}

/// A tokenizer in a `tokenizer.json` file, or why there is none.
pub open spec fn file_tokenizer(b: Seq<u8>) -> Result<VocabularyView, Seq<char>> {
    match json::document(b) {
        Err(e) => Err(json::error_text(e)),
        Ok(v) => match loaded(v) {
            Err(e) => Err(refused(e)),
            Ok(m) => match words::compile_fault(GPT2_PATTERN@) {
                Some(e) => Err("regex: "@ + e),
                None => Ok(m),
            },
        },
    }
}

impl Tokenizer {
    pub closed spec fn wf(&self) -> bool {
        self.vocabulary.wf() && words::compiled_from(self.word_re) == GPT2_PATTERN@
    }

    /// Loads a tokenizer from the contents of `tokenizer.json`.
    pub fn from_json(b: &[u8]) -> (r: Result<Tokenizer, Error>)
        ensures
            match file_tokenizer(b@) {
                Ok(m) => r matches Ok(t) && t@ == m && t.wf(),
                Err(m) => r matches Err(e) && e@ == m,
            },
    {
        let v: Value = match json::parse(b) {
            Ok(v) => v,
            Err(e) => {
                return Err(Error(e.message()));
            },
        };
        let vocabulary: Vocabulary = match Vocabulary::from_value(&v) {
            Ok(x) => x,
            Err(e) => {
                return Err(e);
            },
        };
        match words::compile(GPT2_PATTERN) {
            Ok(word_re) => Ok(Tokenizer { vocabulary, word_re }),
            Err(why) => {
                let mut m = "regex: ".to_owned();
                m.append(why.as_str());
                Err(Error(m))
            },
        }
    }

    /// Number of ids.
    pub fn vocab_size(&self) -> (r: usize)
        ensures
            r == self@.ids.len(),
    {
        self.vocabulary.vocab_size()
    }

    /// The tokens, ids and merges of the tokenizer.
    pub fn vocabulary(&self) -> (r: &Vocabulary)
        requires
            self.wf(),
        ensures
            r@ == self@,
            r.wf(),
    {
        &self.vocabulary
    }

    /// Tokenizes a piece of text without added tokens and digit runs.
    fn encode_piece(&self, piece: &str) -> (r: Result<Vec<u32>, Error>)
        requires
            self.wf(),
        ensures
            ids_as(
                r,
                ({
                    let (w, fault) = words::matches_of(GPT2_PATTERN@, piece@);
                    self@.words_ids(w, fault)
                }),
            ),
            r is Ok ==> laws::covers(GPT2_PATTERN@, piece@),
    {
        let (w, fault) = words::find_words(&self.word_re, piece);
        proof {
            lemma_words_without_fault(
                self@,
                words::matches_of(GPT2_PATTERN@, piece@).0,
                words::matches_of(GPT2_PATTERN@, piece@).1,
            );
        }
        self.vocabulary.encode_words(&w, &fault)
    }

    /// Tokenizes a text without added tokens.
    fn encode_plain(&self, s: &str) -> (r: Result<Vec<u32>, Error>)
        requires
            self.wf(),
        ensures
            ids_as(r, pieces_ids(self@, GPT2_PATTERN@, digit_pieces(s@))),
            r is Ok ==> laws::pieces_covered(GPT2_PATTERN@, digit_pieces(s@)),
    {
        let pieces = split_digits(s);
        let ghost all = digit_pieces(s@);
        let ghost p = GPT2_PATTERN@;
        let mut out: Vec<u32> = Vec::new();
        let mut i: usize = 0;
        proof {
            assert(all.skip(0) =~= all);
            assert(out@ =~= seq![]);
            if let Ok(t) = pieces_ids(self@, p, all) {
                assert(out@ + t =~= t);
            }
        }
        while i < pieces.len()
            invariant
                self.wf(),
                i <= pieces@.len(),
                all == texts(pieces@),
                all == digit_pieces(s@),
                p == GPT2_PATTERN@,
                forall|j: int| 0 <= j < i ==> laws::covers(p, #[trigger] all[j]),
                match pieces_ids(self@, p, all.skip(i as int)) {
                    Ok(t) => pieces_ids(self@, p, all) == Ok::<Seq<u32>, Seq<char>>(out@ + t),
                    Err(e) => pieces_ids(self@, p, all) == Err::<Seq<u32>, Seq<char>>(e),
                },
            decreases pieces@.len() - i,
        {
            let ghost before = out@;
            assert(all.skip(i as int)[0] == pieces@[i as int]@);
            assert(all.skip(i as int).skip(1) =~= all.skip(i + 1));
            match self.encode_piece(pieces[i].as_str()) {
                Err(e) => {
                    return Err(e);
                },
                Ok(ids) => {
                    out.extend_from_slice(ids.as_slice());
                    proof {
                        assert(out@ =~= before + ids@);
                        if let Ok(t) = pieces_ids(self@, p, all.skip(i + 1)) {
                            assert(before + (ids@ + t) =~= out@ + t);
                        }
                    }
                },
            }
            i = i + 1;
        }
        assert(all.skip(i as int).len() == 0);
        assert(out@ + Seq::<u32>::empty() =~= out@);
        Ok(out)
    }

    /// Tokenizes text to ids (special added tokens split first, never merged).
    /// Decoding the ids gives the text back.
    pub fn encode(&self, t: &str) -> (r: Result<Vec<u32>, Error>)
        requires
            self.wf(),
        ensures
            ids_as(r, encoded(self@, GPT2_PATTERN@, t@)),
            r is Ok ==> laws::covers_text(self@, GPT2_PATTERN@, t@),
            r is Ok && laws::ids_invert_vocab(self@) && laws::added_decode(self@) ==> self@.decoded(
                r->Ok_0@,
            ) == Ok::<Seq<char>, Seq<char>>(t@),
    {
        let chunks = self.vocabulary.split_added(t);
        let ghost all = chunk_views(chunks@);
        let ghost p = GPT2_PATTERN@;
        let mut out: Vec<u32> = Vec::new();
        let mut i: usize = 0;
        proof {
            assert(all.skip(0) =~= all);
            assert(out@ =~= seq![]);
            if let Ok(x) = chunks_ids(self@, p, all) {
                assert(out@ + x =~= x);
            }
        }
        while i < chunks.len()
            invariant
                self.wf(),
                i <= chunks@.len(),
                all == chunk_views(chunks@),
                all == chunks_from(t@, 0, 0, self@.added),
                p == GPT2_PATTERN@,
                forall|j: int|
                    0 <= j < i ==> (#[trigger] all[j] matches ChunkView::Text(s)
                        ==> laws::pieces_covered(p, digit_pieces(s))),
                encoded(self@, p, t@) == chunks_ids(self@, p, all),
                match chunks_ids(self@, p, all.skip(i as int)) {
                    Ok(x) => chunks_ids(self@, p, all) == Ok::<Seq<u32>, Seq<char>>(out@ + x),
                    Err(e) => chunks_ids(self@, p, all) == Err::<Seq<u32>, Seq<char>>(e),
                },
            decreases chunks@.len() - i,
        {
            let ghost before = out@;
            let ghost mut ids: Seq<u32> = seq![];
            assert(all.skip(i as int)[0] == chunks@[i as int]@);
            assert(all.skip(i as int).skip(1) =~= all.skip(i + 1));
            match &chunks[i] {
                Chunk::Special(id) => {
                    out.push(*id);
                    proof {
                        ids = seq![*id];
                    }
                },
                Chunk::Text(s) => {
                    match self.encode_plain(s.as_str()) {
                        Err(e) => {
                            return Err(e);
                        },
                        Ok(v) => {
                            out.extend_from_slice(v.as_slice());
                            proof {
                                ids = v@;
                            }
                        },
                    }
                },
            }
            proof {
                assert(out@ =~= before + ids);
                if let Ok(x) = chunks_ids(self@, p, all.skip(i + 1)) {
                    assert(before + (ids + x) =~= out@ + x);
                }
            }
            i = i + 1;
        }
        assert(all.skip(i as int).len() == 0);
        assert(out@ + Seq::<u32>::empty() =~= out@);
        proof {
            if laws::ids_invert_vocab(self@) && laws::added_decode(self@) {
                laws::lemma_decode_encoded(self@, p, t@);
            }
        }
        Ok(out)
    }

    /// Detokenizes ids (ByteLevel decoder).
    pub fn decode(&self, ids: &[u32]) -> (r: Result<String, Error>)
        ensures
            match self@.decoded(ids@) {
                Ok(t) => r matches Ok(s) && s@ == t,
                Err(m) => r matches Err(e) && e@ == m,
            },
    {
        self.vocabulary.decode(ids)
    }
}

} // verus!
