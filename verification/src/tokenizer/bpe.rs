//! A whitespace vocabulary tokenizer: a token per line of a vocabulary,
//! numbered from 0; text is split on Unicode white space and each word
//! looked up, unknown words becoming 0.
use vstd::prelude::*;
use vstd::hash_map::{HashMapWithView, StringHashMap};
use crate::text::{char_is_whitespace, chars_of, is_white_space, string_from_chars, trim_end_spec};

verus! {

broadcast use vstd::std_specs::hash::group_hash_axioms;

/// A vocabulary tokenizer.
pub struct BpeTokenizer {
    /// Token id to token text (decoding).
    id_to_token: HashMapWithView<u32, String>,
    /// Token text to token id (encoding).
    token_to_id: StringHashMap<u32>,
}

/// The texts of the tokens, by id.
pub open spec fn strings_view(m: Map<u32, String>) -> Map<u32, Seq<char>> {
    m.map_values(|s: String| s@)
}

impl BpeTokenizer {
    /// Token id to token text.
    pub closed spec fn vocab(&self) -> Map<u32, Seq<char>> {
        strings_view(self.id_to_token@)
    }

    /// Token text to token id.
    pub closed spec fn ids(&self) -> Map<Seq<char>, u32> {
        self.token_to_id@
    }
}

/// The words of `s[i..]`, given the word `cur` in progress and the words
/// `acc` found before: maximal runs of characters that are not white space.
pub open spec fn split_ws_from(s: Seq<char>, i: int, cur: Seq<char>, acc: Seq<Seq<char>>) -> Seq<
    Seq<char>,
>
    decreases s.len() - i,
{
    if i < 0 || i >= s.len() {
        if cur.len() > 0 {
            acc.push(cur)
        } else {
            acc
        }
    } else if is_white_space(s[i]) {
        split_ws_from(
            s,
            i + 1,
            Seq::empty(),
            if cur.len() > 0 {
                acc.push(cur)
            } else {
                acc
            },
        )
    } else {
        split_ws_from(s, i + 1, cur.push(s[i]), acc)
    }
}

/// The white-space separated words of `s` (`str::split_whitespace`).
pub open spec fn ws_words(s: Seq<char>) -> Seq<Seq<char>> {
    split_ws_from(s, 0, Seq::empty(), Seq::empty())
}

/// A word's id: its vocabulary id, or 0 when unknown.
pub open spec fn word_id(ids: Map<Seq<char>, u32>, w: Seq<char>) -> u32 {
    if ids.contains_key(w) {
        ids[w]
    } else {
        0
    }
}

/// The ids of words.
pub open spec fn words_ids(ids: Map<Seq<char>, u32>, ws: Seq<Seq<char>>) -> Seq<u32> {
    ws.map_values(|w: Seq<char>| word_id(ids, w))
}

/// The vocabulary after loading `lines`, line `i` getting id `i`.
pub open spec fn load_vocab(v: Map<u32, Seq<char>>, lines: Seq<Seq<char>>) -> Map<u32, Seq<char>>
    decreases lines.len(),
{
    if lines.len() == 0 {
        v
    } else {
        load_vocab(v, lines.drop_last()).insert((lines.len() - 1) as u32, lines.last())
    }
}

/// The id table after loading `lines`; a repeated line keeps its last id.
pub open spec fn load_ids(m: Map<Seq<char>, u32>, lines: Seq<Seq<char>>) -> Map<Seq<char>, u32>
    decreases lines.len(),
{
    if lines.len() == 0 {
        m
    } else {
        load_ids(m, lines.drop_last()).insert(lines.last(), (lines.len() - 1) as u32)
    }
}

/// The texts of `ids` that the vocabulary knows, each followed by a space.
pub open spec fn decode_join(v: Map<u32, Seq<char>>, ids: Seq<u32>) -> Seq<char>
    decreases ids.len(),
{
    if ids.len() == 0 {
        Seq::empty()
    } else if v.contains_key(ids.last()) {
        decode_join(v, ids.drop_last()) + v[ids.last()] + seq![' ']
    } else {
        decode_join(v, ids.drop_last())
    }
}

/// The texts of the strings.
pub open spec fn lines_view(v: Seq<String>) -> Seq<Seq<char>> {
    v.map_values(|s: String| s@)
}

impl BpeTokenizer {
    /// An empty tokenizer.
    pub fn new() -> (t: Self)
        ensures
            t.vocab() == Map::<u32, Seq<char>>::empty(),
            t.ids() == Map::<Seq<char>, u32>::empty(),
    {
        let t = BpeTokenizer { id_to_token: HashMapWithView::new(), token_to_id: StringHashMap::new() };
        assert(t.vocab() =~= Map::<u32, Seq<char>>::empty());
        t
    }

    /// Load a vocabulary, one token per line, ids from 0; returns the
    /// number of tokens loaded.
    pub fn load_vocabulary_lines(&mut self, lines: &Vec<String>) -> (count: u32)
        requires
            lines@.len() <= u32::MAX,
        ensures
            count == lines@.len(),
            final(self).vocab() == load_vocab(old(self).vocab(), lines_view(lines@)),
            final(self).ids() == load_ids(old(self).ids(), lines_view(lines@)),
    {
        let mut current_id: u32 = 0;
        let n = lines.len();
        let mut i: usize = 0;
        while i < n
            invariant
                n == lines@.len(),
                n <= u32::MAX,
                i <= n,
                current_id == i,
                self.vocab() == load_vocab(old(self).vocab(), lines_view(lines@).take(i as int)),
                self.ids() == load_ids(old(self).ids(), lines_view(lines@).take(i as int)),
            decreases n - i,
        {
            let token = &lines[i];
            let ghost old_map = self.id_to_token@;
            self.id_to_token.insert(current_id, token.clone());
            self.token_to_id.insert(token.clone(), current_id);
            proof {
                let t = lines_view(lines@).take(i + 1);
                assert(t.drop_last() =~= lines_view(lines@).take(i as int));
                assert(t.last() == token@);
                assert(strings_view(self.id_to_token@) =~= strings_view(old_map).insert(
                    current_id,
                    token@,
                ));
            }
            current_id += 1;
            i += 1;
        }
        assert(lines_view(lines@).take(n as int) =~= lines_view(lines@));
        current_id
    }

    /// The ids of the white-space separated words of `text` (0 for a word
    /// the vocabulary does not hold).
    pub fn encode(&self, text: &str) -> (tokens: Vec<u32>)
        ensures
            tokens@ == words_ids(self.ids(), ws_words(text@)),
    {
        let chars = chars_of(text);
        let mut tokens: Vec<u32> = Vec::new();
        let mut cur: Vec<char> = Vec::new();
        let ghost mut acc: Seq<Seq<char>> = Seq::empty();
        let n = chars.len();
        let mut i: usize = 0;
        while i < n
            invariant
                n == chars@.len(),
                chars@ == text@,
                i <= n,
                split_ws_from(text@, i as int, cur@, acc) == ws_words(text@),
                tokens@ == words_ids(self.ids(), acc),
            decreases n - i,
        {
            let c = chars[i];
            if char_is_whitespace(c) {
                if cur.len() > 0 {
                    let id = self.lookup(&cur);
                    proof {
                        assert(words_ids(self.ids(), acc.push(cur@)) =~= words_ids(
                            self.ids(),
                            acc,
                        ).push(word_id(self.ids(), cur@)));
                        acc = acc.push(cur@);
                    }
                    tokens.push(id);
                    cur = Vec::new();
                } else {
                    assert(cur@ =~= Seq::<char>::empty());
                }
            } else {
                cur.push(c);
            }
            i += 1;
        }
        if cur.len() > 0 {
            let id = self.lookup(&cur);
            proof {
                assert(words_ids(self.ids(), acc.push(cur@)) =~= words_ids(self.ids(), acc).push(
                    word_id(self.ids(), cur@),
                ));
            }
            tokens.push(id);
        }
        tokens
    }

    /// The id of the word `w`, or 0.
    fn lookup(&self, w: &Vec<char>) -> (id: u32)
        ensures
            id == word_id(self.ids(), w@),
    {
        let s = string_from_chars(w);
        match self.token_to_id.get(s.as_str()) {
            Some(id) => *id,
            None => 0,
        }
    }

    /// The texts of the known ids, each followed by a space, without the
    /// trailing white space.
    pub fn decode(&self, token_ids: &[u32]) -> (text: String)
        ensures
            text@ == trim_end_spec(decode_join(self.vocab(), token_ids@)),
    {
        let mut buf: Vec<char> = Vec::new();
        let n = token_ids.len();
        let mut i: usize = 0;
        while i < n
            invariant
                n == token_ids@.len(),
                i <= n,
                buf@ == decode_join(self.vocab(), token_ids@.take(i as int)),
            decreases n - i,
        {
            let id = token_ids[i];
            proof {
                assert(token_ids@.take(i + 1).drop_last() =~= token_ids@.take(i as int));
                assert(token_ids@.take(i + 1).last() == id);
            }
            match self.id_to_token.get(&id) {
                Some(token) => {
                    let tc = chars_of(token.as_str());
                    let ghost before = buf@;
                    let mut k: usize = 0;
                    while k < tc.len()
                        invariant
                            k <= tc@.len(),
                            buf@ == before + tc@.take(k as int),
                        decreases tc@.len() - k,
                    {
                        buf.push(tc[k]);
                        k += 1;
                        assert(buf@ =~= before + tc@.take(k as int));
                    }
                    buf.push(' ');
                    proof {
                        assert(tc@.take(tc@.len() as int) =~= tc@);
                        assert(self.vocab()[id] == token@);
                    }
                },
                None => {
                    assert(!self.vocab().contains_key(id));
                },
            }
            i += 1;
        }
        assert(token_ids@.take(n as int) =~= token_ids@);
        loop
            invariant
                trim_end_spec(buf@) == trim_end_spec(decode_join(self.vocab(), token_ids@)),
            ensures
                buf@ == trim_end_spec(decode_join(self.vocab(), token_ids@)),
            decreases buf@.len(),
        {
            if buf.len() == 0 {
                break;
            }
            let last = buf[buf.len() - 1];
            if !char_is_whitespace(last) {
                break;
            }
            let ghost before = buf@;
            buf.pop();
            assert(buf@ =~= before.drop_last());
        }
        string_from_chars(&buf)
    }
}

/// Words joined by single spaces.
pub open spec fn join_words(ws: Seq<Seq<char>>) -> Seq<char>
    decreases ws.len(),
{
    if ws.len() == 0 {
        Seq::empty()
    } else if ws.len() == 1 {
        ws[0]
    } else {
        join_words(ws.drop_last()) + seq![' '] + ws.last()
    }
}

/// A vocabulary line the tokenizer can give back: a non-empty word without
/// white space.
pub open spec fn plain_word(w: Seq<char>) -> bool {
    w.len() > 0 && forall|k: int| 0 <= k < w.len() ==> !is_white_space(#[trigger] w[k])
}

/// After loading the first `n` lines, each id below `n` names its line,
/// and each loaded line maps to a position at which it occurs.
proof fn lemma_load_lines(lines: Seq<Seq<char>>, n: int)
    requires
        0 <= n <= lines.len() <= u32::MAX,
    ensures
        forall|i: u32|
            (i as int) < n ==> #[trigger] load_vocab(Map::empty(), lines.take(n)).contains_key(i)
                && load_vocab(Map::empty(), lines.take(n))[i] == lines[i as int],
        forall|s: Seq<char>| #[trigger]
            load_ids(Map::empty(), lines.take(n)).contains_key(s) <==> lines.take(n).contains(s),
        forall|s: Seq<char>|
            #[trigger] load_ids(Map::empty(), lines.take(n)).contains_key(s) ==> 0 <= load_ids(
                Map::empty(),
                lines.take(n),
            )[s] < n && lines[load_ids(Map::empty(), lines.take(n))[s] as int] == s,
    decreases n,
{
    if n > 0 {
        lemma_load_lines(lines, n - 1);
        let t = lines.take(n);
        let p = lines.take(n - 1);
        assert(t.drop_last() =~= p);
        assert(t.last() == lines[n - 1]);
        let v = load_vocab(Map::empty(), t);
        let m = load_ids(Map::empty(), t);
        let pv = load_vocab(Map::empty(), p);
        let pm = load_ids(Map::empty(), p);
        assert(v == pv.insert((n - 1) as u32, lines[n - 1]));
        assert(m == pm.insert(lines[n - 1], (n - 1) as u32));
        assert forall|i: u32| (i as int) < n implies #[trigger] v.contains_key(i) && v[i] == lines[i as int] by {
            if (i as int) < n - 1 {
                assert(i != ((n - 1) as u32));
                assert(pv.contains_key(i));
            }
        }
        assert forall|s: Seq<char>| #[trigger] m.contains_key(s) <==> t.contains(s) by {
            if p.contains(s) {
                let w = choose|w: int| 0 <= w < n - 1 && #[trigger] p[w] == s;
                assert(t[w] == s);
            }
            if s == lines[n - 1] {
                assert(t[n - 1] == s);
            }
            if t.contains(s) {
                let w = choose|w: int| 0 <= w < n && #[trigger] t[w] == s;
                if w < n - 1 {
                    assert(p[w] == s);
                }
            }
            assert(pm.contains_key(s) <==> p.contains(s));
        }
        assert forall|s: Seq<char>| #[trigger] m.contains_key(s) implies 0 <= m[s] < n && lines[m[s] as int]
            == s by {
            if s != lines[n - 1] {
                assert(pm.contains_key(s));
                assert(m[s] == pm[s]);
            }
        }
    }
}

/// Every word `split_ws_from` gives is non-empty and holds no white space.
proof fn lemma_split_plain(s: Seq<char>, i: int, cur: Seq<char>, acc: Seq<Seq<char>>)
    requires
        forall|k: int| 0 <= k < cur.len() ==> !is_white_space(#[trigger] cur[k]),
        forall|j: int| 0 <= j < acc.len() ==> plain_word(#[trigger] acc[j]),
    ensures
        forall|j: int|
            0 <= j < split_ws_from(s, i, cur, acc).len() ==> plain_word(
                #[trigger] split_ws_from(s, i, cur, acc)[j],
            ),
    decreases s.len() - i,
{
    let r = split_ws_from(s, i, cur, acc);
    let acc2 = if cur.len() > 0 {
        acc.push(cur)
    } else {
        acc
    };
    assert forall|j: int| 0 <= j < acc2.len() implies plain_word(#[trigger] acc2[j]) by {
        if j < acc.len() {
            assert(acc2[j] == acc[j]);
        } else {
            assert(acc2[j] == cur);
        }
    }
    if i < 0 || i >= s.len() {
        assert(r == acc2);
    } else if is_white_space(s[i]) {
        lemma_split_plain(s, i + 1, Seq::empty(), acc2);
        assert(r == split_ws_from(s, i + 1, Seq::empty(), acc2));
    } else {
        let cur2 = cur.push(s[i]);
        assert forall|k: int| 0 <= k < cur2.len() implies !is_white_space(#[trigger] cur2[k]) by {
            if k < cur.len() {
                assert(cur2[k] == cur[k]);
            }
        }
        lemma_split_plain(s, i + 1, cur2, acc);
        assert(r == split_ws_from(s, i + 1, cur2, acc));
    }
}

/// Decoding the ids of loaded words gives the words, each followed by a
/// space.
proof fn lemma_decode_words(lines: Seq<Seq<char>>, ws: Seq<Seq<char>>)
    requires
        lines.len() <= u32::MAX,
        forall|j: int| 0 <= j < ws.len() ==> lines.contains(#[trigger] ws[j]),
    ensures
        ws.len() > 0 ==> decode_join(
            load_vocab(Map::empty(), lines),
            words_ids(load_ids(Map::empty(), lines), ws),
        ) == join_words(ws) + seq![' '],
        ws.len() == 0 ==> decode_join(
            load_vocab(Map::empty(), lines),
            words_ids(load_ids(Map::empty(), lines), ws),
        ) == Seq::<char>::empty(),
    decreases ws.len(),
{
    let v = load_vocab(Map::empty(), lines);
    let m = load_ids(Map::empty(), lines);
    if ws.len() > 0 {
        lemma_decode_words(lines, ws.drop_last());
        lemma_load_lines(lines, lines.len() as int);
        assert(lines.take(lines.len() as int) =~= lines);
        let w = ws.last();
        assert(lines.contains(w));
        assert(m.contains_key(w));
        let iu = m[w];
        let i = iu as int;
        assert(0 <= i < lines.len() && lines[i] == w);
        assert(v.contains_key(iu) && v[iu] == lines[i]);
        assert(word_id(m, w) == i as u32);
        assert(words_ids(m, ws).drop_last() =~= words_ids(m, ws.drop_last()));
        assert(words_ids(m, ws).last() == i as u32);
        if ws.len() > 1 {
            assert(join_words(ws) == join_words(ws.drop_last()) + seq![' '] + w);
            assert(decode_join(v, words_ids(m, ws)) =~= join_words(ws) + seq![' ']);
        } else {
            assert(decode_join(v, words_ids(m, ws)) =~= join_words(ws) + seq![' ']);
        }
    }
}

/// Trimming the trailing space after text that ends in a plain word gives
/// the text.
proof fn lemma_trim_one_space(x: Seq<char>)
    requires
        x.len() > 0,
        !is_white_space(x.last()),
    ensures
        trim_end_spec(x + seq![' ']) == x,
{
    let y = x + seq![' '];
    assert(is_white_space(' '));
    assert(y.last() == ' ');
    assert(y.drop_last() =~= x);
    assert(trim_end_spec(x) == x);
    assert(trim_end_spec(y) == trim_end_spec(y.drop_last()));
}

/// The last character of joined plain words is not white space.
proof fn lemma_join_ends_plain(ws: Seq<Seq<char>>)
    requires
        ws.len() > 0,
        forall|j: int| 0 <= j < ws.len() ==> plain_word(#[trigger] ws[j]),
    ensures
        join_words(ws).len() > 0,
        !is_white_space(join_words(ws).last()),
{
    let w = ws.last();
    assert(plain_word(w));
    assert(!is_white_space(w[w.len() - 1]));
    if ws.len() > 1 {
        assert(join_words(ws) == join_words(ws.drop_last()) + seq![' '] + w);
        assert(join_words(ws).last() == w.last());
    }
}

/// Decoding what was encoded gives the text's words joined by single
/// spaces, for a tokenizer that loaded one vocabulary holding every word
/// of the text (repeated lines and lines with white space in them
/// included).
pub proof fn law_round_trip(lines: Seq<Seq<char>>, text: Seq<char>)
    requires
        lines.len() <= u32::MAX,
        forall|j: int| 0 <= j < ws_words(text).len() ==> lines.contains(#[trigger] ws_words(text)[j]),
    ensures
        trim_end_spec(
            decode_join(
                load_vocab(Map::empty(), lines),
                words_ids(load_ids(Map::empty(), lines), ws_words(text)),
            ),
        ) == join_words(ws_words(text)),
{
    let ws = ws_words(text);
    lemma_decode_words(lines, ws);
    if ws.len() > 0 {
        lemma_split_plain(text, 0, Seq::empty(), Seq::empty());
        lemma_join_ends_plain(ws);
        lemma_trim_one_space(join_words(ws));
    }
}

} // verus!
