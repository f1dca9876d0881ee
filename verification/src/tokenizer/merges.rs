//! BPE merge rules recovered from a vocabulary and its scores.
//!
//! A GGUF vocabulary lists tokens and scores but no merges.  Every token of
//! at least two characters that is not written between angle brackets
//! yields one merge: its first split into two halves that are both tokens.
//! Merges are ranked by the token's score, highest first, and tokens of
//! equal score keep their vocabulary order.
use vstd::prelude::*;
use vstd::hash_set::StringHashSet;
use vstd::string::StrSliceExecFns;

verus! {

/// The texts of a sequence of strings.
pub open spec fn texts(v: Seq<String>) -> Seq<Seq<char>> {
    v.map_values(|s: String| s@)
}

/// The texts of a sequence of string pairs.
pub open spec fn pair_texts(v: Seq<(String, String)>) -> Seq<(Seq<char>, Seq<char>)> {
    v.map_values(|p: (String, String)| (p.0@, p.1@))
}

/// The set of token texts.
pub open spec fn token_set(tokens: Seq<Seq<char>>) -> Set<Seq<char>> {
    Set::new(|s: Seq<char>| tokens.contains(s))
}

/// A token written between angle brackets, such as `<unk>` or `<0x0A>`.
pub open spec fn is_bracketed(t: Seq<char>) -> bool {
    t.len() > 0 && t[0] == '<' && t.last() == '>'
}

/// The first split point of `t`, from `from` on, where both halves are in `set`.
pub open spec fn first_split_from(set: Set<Seq<char>>, t: Seq<char>, from: int) -> Option<int>
    decreases t.len() - from,
{
    if from >= t.len() {
        None
    } else if set.contains(t.subrange(0, from)) && set.contains(t.subrange(from, t.len() as int)) {
        Some(from)
    } else {
        first_split_from(set, t, from + 1)
    }
}

/// Where the token `t` splits into a merge, if it yields one.
pub open spec fn merge_split(set: Set<Seq<char>>, t: Seq<char>) -> Option<int> {
    if t.len() < 2 || is_bracketed(t) {
        None
    } else {
        first_split_from(set, t, 1)
    }
}

/// The order key of a 32-bit float given by its bit pattern: sign and
/// magnitude read as an integer.  For floats that are not NaN, `a < b`
/// exactly when `score_key(a) < score_key(b)`, and both zeros have key 0.
pub open spec fn score_key(bits: u32) -> int {
    let mag = (bits & 0x7fff_ffffu32) as int;
    if bits >= 0x8000_0000u32 {
        -mag
    } else {
        mag
    }
}

/// `x < y` for the 32-bit floats with bit patterns `x` and `y`, as IEEE 754
/// orders numbers: a sign bit over a magnitude, the two zeros equal, every
/// negative number below every positive one, and among numbers of one sign
/// the one of larger magnitude further from zero.
pub open spec fn float_lt(x: u32, y: u32) -> bool {
    let mx = x % 0x8000_0000;
    let my = y % 0x8000_0000;
    let neg_x = x >= 0x8000_0000;
    let neg_y = y >= 0x8000_0000;
    if mx == 0 && my == 0 {
        false
    } else if neg_x != neg_y {
        neg_x
    } else if neg_x {
        my < mx
    } else {
        mx < my
    }
}

/// Scores are ranked as floats: for two scores that are not NaN, the first
/// is the smaller float exactly when its order key is the smaller key, so a
/// merge recovered from a higher-scored token ranks first.
pub proof fn law_score_key_orders_floats(x: u32, y: u32)
    requires
        !is_nan_bits(x),
        !is_nan_bits(y),
    ensures
        float_lt(x, y) <==> score_key(x) < score_key(y),
        (!float_lt(x, y) && !float_lt(y, x)) <==> score_key(x) == score_key(y),
{
    assert(x & 0x7fff_ffffu32 == x % 0x8000_0000) by (bit_vector);
    assert(y & 0x7fff_ffffu32 == y % 0x8000_0000) by (bit_vector);
}

/// The bit pattern is a NaN.
pub open spec fn is_nan_bits(bits: u32) -> bool {
    (bits & 0x7fff_ffffu32) > 0x7f80_0000u32
}

/// The merge candidates of the first `n` tokens, in vocabulary order: each
/// token that splits gives its left half, right half and score key.
pub open spec fn merge_candidates(tokens: Seq<Seq<char>>, scores: Seq<u32>, n: int) -> Seq<
    (Seq<char>, Seq<char>, int),
>
    decreases n,
{
    if n <= 0 {
        Seq::empty()
    } else {
        let prev = merge_candidates(tokens, scores, n - 1);
        let t = tokens[n - 1];
        match merge_split(token_set(tokens), t) {
            Some(k) => prev.push(
                (t.subrange(0, k), t.subrange(k, t.len() as int), score_key(scores[n - 1])),
            ),
            None => prev,
        }
    }
}

/// Candidate `i` ranks before candidate `j`: a higher score, or an equal
/// score and an earlier token.
pub open spec fn merge_before(c: Seq<(Seq<char>, Seq<char>, int)>, i: int, j: int) -> bool {
    c[i].2 > c[j].2 || (c[i].2 == c[j].2 && i < j)
}

/// `order` lists the candidates by rank, each once.
pub open spec fn is_merge_order(c: Seq<(Seq<char>, Seq<char>, int)>, order: Seq<int>) -> bool {
    &&& order.len() == c.len()
    &&& forall|a: int| 0 <= a < order.len() ==> 0 <= #[trigger] order[a] < c.len()
    &&& forall|a: int, b: int|
        0 <= a < b < order.len() ==> merge_before(c, #[trigger] order[a], #[trigger] order[b])
}

/// The merge list of a vocabulary: the candidates' halves, by rank.
pub open spec fn is_merge_list(
    tokens: Seq<Seq<char>>,
    scores: Seq<u32>,
    m: Seq<(Seq<char>, Seq<char>)>,
) -> bool {
    let c = merge_candidates(tokens, scores, tokens.len() as int);
    exists|order: Seq<int>|
        #![trigger is_merge_order(c, order)]
        is_merge_order(c, order) && m.len() == order.len() && forall|a: int|
            0 <= a < m.len() ==> #[trigger] m[a] == (c[order[a]].0, c[order[a]].1)
}

/// Every merge's halves, and their concatenation, are in `set`.
pub open spec fn merges_within(set: Set<Seq<char>>, m: Seq<(Seq<char>, Seq<char>)>) -> bool {
    forall|a: int|
        0 <= a < m.len() ==> set.contains(#[trigger] m[a].0) && set.contains(m[a].1)
            && set.contains(m[a].0 + m[a].1)
}

/// A score key lies strictly between `-2^31` and `2^31`.
proof fn lemma_score_key_range(bits: u32)
    ensures
        -0x8000_0000 < score_key(bits) < 0x8000_0000,
{
    let mag = bits & 0x7fff_ffffu32;
    assert(mag <= 0x7fff_ffff) by (bit_vector)
        requires
            mag == bits & 0x7fff_ffffu32,
    ;
}

/// `first_split_from` finds a split whose halves are in the set.
proof fn lemma_first_split_from(set: Set<Seq<char>>, t: Seq<char>, from: int)
    requires
        from >= 1,
    ensures
        first_split_from(set, t, from) matches Some(k) ==> 1 <= k < t.len() && set.contains(
            t.subrange(0, k),
        ) && set.contains(t.subrange(k, t.len() as int)),
    decreases t.len() - from,
{
    if from < t.len() {
        lemma_first_split_from(set, t, from + 1);
    }
}

/// Every candidate's halves are tokens and make up a token.
pub proof fn lemma_candidates_within(tokens: Seq<Seq<char>>, scores: Seq<u32>, n: int)
    requires
        0 <= n <= tokens.len(),
    ensures
        forall|i: int|
            #![trigger merge_candidates(tokens, scores, n)[i]]
            0 <= i < merge_candidates(tokens, scores, n).len() ==> {
                let c = merge_candidates(tokens, scores, n)[i];
                token_set(tokens).contains(c.0) && token_set(tokens).contains(c.1)
                    && token_set(tokens).contains(c.0 + c.1) && -0x8000_0000 < c.2 < 0x8000_0000
            },
        merge_candidates(tokens, scores, n).len() <= n,
    decreases n,
{
    if n > 0 {
        lemma_candidates_within(tokens, scores, n - 1);
        let t = tokens[n - 1];
        let set = token_set(tokens);
        lemma_first_split_from(set, t, 1);
        lemma_score_key_range(scores[n - 1]);
        if let Some(k) = merge_split(set, t) {
            assert(t.subrange(0, k) + t.subrange(k, t.len() as int) =~= t);
            assert(tokens.contains(t));
        }
    }
}

/// `slice::sort` on pairs of integers: the pairs, sorted ascending in the
/// lexicographic order that `std` defines for tuples.
pub open spec fn pair_le(a: (i64, u64), b: (i64, u64)) -> bool {
    a.0 < b.0 || (a.0 == b.0 && a.1 <= b.1)
}

/// `<[T]>::sort` on `(i64, u64)` pairs: afterwards the vector holds the same
/// pairs (as a multiset), in ascending lexicographic order.
#[verifier::external_body]
fn sort_pairs(v: &mut Vec<(i64, u64)>)
    ensures
        final(v)@.to_multiset() == old(v)@.to_multiset(),
        forall|i: int, j: int| 0 <= i < j < final(v)@.len() ==> pair_le(final(v)@[i], final(v)@[j]),
{
    v.sort();
}

/// The integer order key of a score (see [`score_key`]).
fn score_key_exec(bits: u32) -> (k: i64)
    ensures
        k == score_key(bits),
        -0x8000_0000 < k < 0x8000_0000,
{
    let mag = bits & 0x7fff_ffff;
    assert(mag <= 0x7fff_ffff) by (bit_vector)
        requires
            mag == bits & 0x7fff_ffffu32,
    ;
    if bits >= 0x8000_0000 {
        -(mag as i64)
    } else {
        mag as i64
    }
}

/// Where `t` splits into a merge (see [`merge_split`]).
fn merge_split_exec(set: &StringHashSet, t: &str) -> (r: Option<usize>)
    ensures
        match merge_split(set@, t@) {
            Some(k) => r == Some(k as usize) && 1 <= k < t@.len(),
            None => r is None,
        },
{
    let n = t.unicode_len();
    if n < 2 {
        return None;
    }
    if t.get_char(0) == '<' && t.get_char(n - 1) == '>' {
        return None;
    }
    let mut k: usize = 1;
    while k < n
        invariant
            n == t@.len(),
            n >= 2,
            !is_bracketed(t@),
            1 <= k <= n,
            merge_split(set@, t@) == first_split_from(set@, t@, k as int),
        decreases n - k,
    {
        let left = t.substring_char(0, k);
        let right = t.substring_char(k, n);
        if set.contains(left) && set.contains(right) {
            return Some(k);
        }
        k += 1;
    }
    None
}

/// The set of the token texts.
fn token_set_exec(tokens: &Vec<String>) -> (s: StringHashSet)
    ensures
        s@ == token_set(texts(tokens@)),
{
    let ghost tv = texts(tokens@);
    let mut s = StringHashSet::new();
    let mut i: usize = 0;
    while i < tokens.len()
        invariant
            i <= tokens@.len(),
            tv == texts(tokens@),
            s@ == token_set(tv.take(i as int)),
        decreases tokens@.len() - i,
    {
        s.insert(tokens[i].clone());
        assert(s@ =~= token_set(tv.take(i + 1))) by {
            assert forall|x: Seq<char>| s@.contains(x) == tv.take(i + 1).contains(x) by {
                if tv.take(i as int).contains(x) {
                    let w = choose|w: int| 0 <= w < i && #[trigger] tv.take(i as int)[w] == x;
                    assert(tv.take(i + 1)[w] == x);
                }
                if x == tv[i as int] {
                    assert(tv.take(i + 1)[i as int] == x);
                }
                if tv.take(i + 1).contains(x) {
                    let w = choose|w: int| 0 <= w < i + 1 && #[trigger] tv.take(i + 1)[w] == x;
                    if w < i {
                        assert(tv.take(i as int)[w] == x);
                    }
                }
            }
        }
        i += 1;
    }
    assert(tv.take(tokens@.len() as int) =~= tv);
    s
}

/// The merge list of a vocabulary: every token of two or more characters
/// that is not bracketed gives the first split into two tokens, and the
/// merges are ranked by score, highest first, ties in vocabulary order.
/// A score is the bit pattern of a 32-bit float; none may be NaN.
pub fn reconstruct_merges_from_scores(tokens: &Vec<String>, scores: &Vec<u32>) -> (m: Vec<
    (String, String),
>)
    requires
        scores@.len() == tokens@.len(),
        tokens@.len() < 0x1_0000_0000,
        forall|i: int| 0 <= i < scores@.len() ==> !is_nan_bits(#[trigger] scores@[i]),
    ensures
        is_merge_list(texts(tokens@), scores@, pair_texts(m@)),
        merges_within(token_set(texts(tokens@)), pair_texts(m@)),
{
    let ghost tv = texts(tokens@);
    let set = token_set_exec(tokens);
    let mut halves: Vec<(String, String)> = Vec::new();
    let mut keys: Vec<(i64, u64)> = Vec::new();
    let mut id: usize = 0;
    while id < tokens.len()
        invariant
            id <= tokens@.len(),
            tokens@.len() < 0x1_0000_0000,
            scores@.len() == tokens@.len(),
            tv == texts(tokens@),
            set@ == token_set(tv),
            halves@.len() == keys@.len(),
            halves@.len() == merge_candidates(tv, scores@, id as int).len(),
            halves@.len() <= id,
            forall|j: int|
                0 <= j < halves@.len() ==> {
                    let c = #[trigger] merge_candidates(tv, scores@, id as int)[j];
                    halves@[j].0@ == c.0 && halves@[j].1@ == c.1 && keys@[j] == (
                        (-c.2) as i64,
                        j as u64,
                    )
                },
        decreases tokens@.len() - id,
    {
        let t = tokens[id].as_str();
        proof {
            lemma_candidates_within(tv, scores@, id as int);
        }
        match merge_split_exec(&set, t) {
            Some(k) => {
                let n = t.unicode_len();
                let left = t.substring_char(0, k).to_owned();
                let right = t.substring_char(k, n).to_owned();
                let key = score_key_exec(scores[id]);
                let j = halves.len();
                halves.push((left, right));
                keys.push((-key, j as u64));
                proof {
                    let prev = merge_candidates(tv, scores@, id as int);
                    let tt = tv[id as int];
                    assert(tt == t@);
                    assert(merge_split(token_set(tv), tt) == Some(k as int));
                    let cur = merge_candidates(tv, scores@, id + 1);
                    assert(cur == prev.push(
                        (
                            tt.subrange(0, k as int),
                            tt.subrange(k as int, tt.len() as int),
                            score_key(scores@[id as int]),
                        ),
                    ));
                    assert forall|x: int| 0 <= x < halves@.len() implies {
                        let cc = #[trigger] cur[x];
                        halves@[x].0@ == cc.0 && halves@[x].1@ == cc.1 && keys@[x] == (
                            (-cc.2) as i64,
                            x as u64,
                        )
                    } by {
                        if x < j {
                            assert(cur[x] == prev[x]);
                        }
                    }
                }
            },
            None => {
                proof {
                    assert(tv[id as int] == t@);
                    assert(merge_candidates(tv, scores@, id + 1) == merge_candidates(
                        tv,
                        scores@,
                        id as int,
                    ));
                }
            },
        }
        id += 1;
    }
    let ghost c = merge_candidates(tv, scores@, tv.len() as int);
    proof {
        assert(id == tv.len());
        lemma_candidates_within(tv, scores@, tv.len() as int);
    }
    let ghost before = keys@;
    // The keys are distinct: their second components are their positions.
    proof {
        assert(before.no_duplicates()) by {
            assert forall|i: int, j: int|
                0 <= i < before.len() && 0 <= j < before.len() && i != j implies before[i]
                != before[j] by {
                let _ci = c[i];
                let _cj = c[j];
                assert(before[i].1 == i as u64);
                assert(before[j].1 == j as u64);
            }
        }
        before.lemma_multiset_has_no_duplicates();
    }
    sort_pairs(&mut keys);
    proof {
        vstd::seq_lib::to_multiset_len(keys@);
        vstd::seq_lib::to_multiset_len(before);
        assert(keys@.len() == before.len());
        keys@.lemma_multiset_has_no_duplicates_conv();
        assert forall|a: int| 0 <= a < keys@.len() implies (#[trigger] keys@[a]).1 < before.len()
            && before[keys@[a].1 as int] == keys@[a] by {
            vstd::seq_lib::to_multiset_contains(keys@, keys@[a]);
            vstd::seq_lib::to_multiset_contains(before, keys@[a]);
            assert(keys@.contains(keys@[a]));
            assert(before.contains(keys@[a]));
            let w = choose|w: int| 0 <= w < before.len() && before[w] == keys@[a];
            let _cw = c[w];
            assert(before[w].1 == w as u64);
        }
    }
    let ghost order: Seq<int> = keys@.map_values(|p: (i64, u64)| p.1 as int);
    let mut m: Vec<(String, String)> = Vec::new();
    let mut a: usize = 0;
    while a < keys.len()
        invariant
            a <= keys@.len(),
            keys@.len() == halves@.len(),
            before.len() == halves@.len(),
            halves@.len() == c.len(),
            order == keys@.map_values(|p: (i64, u64)| p.1 as int),
            forall|x: int|
                0 <= x < keys@.len() ==> (#[trigger] keys@[x]).1 < before.len() && before[keys@[x].1 as int]
                    == keys@[x],
            forall|j: int|
                0 <= j < halves@.len() ==> {
                    let cc = #[trigger] c[j];
                    halves@[j].0@ == cc.0 && halves@[j].1@ == cc.1 && before[j] == (
                        (-cc.2) as i64,
                        j as u64,
                    )
                },
            m@.len() == a,
            forall|x: int|
                0 <= x < a ==> #[trigger] pair_texts(m@)[x] == (c[order[x]].0, c[order[x]].1),
        decreases keys@.len() - a,
    {
        let j = keys[a].1 as usize;
        let l = halves[j].0.clone();
        let r = halves[j].1.clone();
        let ghost m0 = m@;
        m.push((l, r));
        proof {
            assert forall|x: int|
                0 <= x < a + 1 implies #[trigger] pair_texts(m@)[x] == (
                c[order[x]].0,
                c[order[x]].1,
            ) by {
                if x < a {
                    assert(m@[x] == m0[x]);
                    assert(pair_texts(m0)[x] == (c[order[x]].0, c[order[x]].1));
                } else {
                    let _cj = c[j as int];
                    assert(order[x] == j as int);
                    assert(m@[x] == (l, r));
                    assert(l@ == halves@[j as int].0@);
                    assert(pair_texts(m@)[x] == (l@, r@));
                }
            }
        }
        a += 1;
    }
    proof {
        assert forall|x: int| 0 <= x < order.len() implies 0 <= #[trigger] order[x] < c.len() by {
            let _k = keys@[x];
        }
        assert forall|x: int, y: int|
            0 <= x < y < order.len() implies merge_before(c, #[trigger] order[x], #[trigger] order[y]) by {
            let wx = keys@[x].1 as int;
            let wy = keys@[y].1 as int;
            let _cx = c[wx];
            let _cy = c[wy];
            assert(before[wx].1 == wx as u64);
            assert(before[wy].1 == wy as u64);
            assert(pair_le(keys@[x], keys@[y]));
            assert(keys@[x] != keys@[y]);
        }
        assert(is_merge_order(c, order));
        assert(merges_within(token_set(tv), pair_texts(m@))) by {
            assert forall|x: int| 0 <= x < pair_texts(m@).len() implies token_set(tv).contains(
                #[trigger] pair_texts(m@)[x].0,
            ) && token_set(tv).contains(pair_texts(m@)[x].1) && token_set(tv).contains(
                pair_texts(m@)[x].0 + pair_texts(m@)[x].1,
            ) by {
                assert(0 <= order[x] < c.len());
                let _cc = c[order[x]];
            }
        }
    }
    m
}

/// A merge order lists every candidate.
proof fn lemma_order_covers(c: Seq<(Seq<char>, Seq<char>, int)>, o: Seq<int>)
    requires
        is_merge_order(c, o),
    ensures
        o.no_duplicates(),
        forall|x: int| 0 <= x < c.len() ==> #[trigger] o.contains(x),
{
    assert(o.no_duplicates()) by {
        assert forall|a: int, b: int| 0 <= a < o.len() && 0 <= b < o.len() && a != b implies o[a]
            != o[b] by {
            if a < b {
                assert(merge_before(c, o[a], o[b]));
            } else {
                assert(merge_before(c, o[b], o[a]));
            }
        }
    }
    let n = c.len() as int;
    let range = vstd::set_lib::set_int_range(0, n);
    vstd::set_lib::lemma_int_range(0, n);
    o.unique_seq_to_set();
    assert(o.to_set().subset_of(range)) by {
        assert forall|x: int| o.to_set().contains(x) implies range.contains(x) by {
            let a = choose|a: int| 0 <= a < o.len() && o[a] == x;
            assert(0 <= o[a] < c.len());
        }
    }
    vstd::set_lib::lemma_len_subset(o.to_set(), range);
    vstd::set_lib::lemma_subset_equality(o.to_set(), range);
    assert forall|x: int| 0 <= x < c.len() implies #[trigger] o.contains(x) by {
        assert(range.contains(x));
        assert(o.to_set().contains(x));
    }
}

/// Two merge orders of the same candidates agree on their first `k` places.
proof fn lemma_orders_agree(c: Seq<(Seq<char>, Seq<char>, int)>, o1: Seq<int>, o2: Seq<int>, k: int)
    requires
        is_merge_order(c, o1),
        is_merge_order(c, o2),
        0 <= k <= o1.len(),
    ensures
        forall|a: int| 0 <= a < k ==> o1[a] == o2[a],
    decreases k,
{
    if k > 0 {
        lemma_orders_agree(c, o1, o2, k - 1);
        lemma_order_covers(c, o1);
        lemma_order_covers(c, o2);
        let a = k - 1;
        let x = o1[a];
        let y = o2[a];
        if x != y {
            assert(o1.contains(y));
            let b = choose|b: int| 0 <= b < o1.len() && o1[b] == y;
            assert(o2.contains(x));
            let d = choose|d: int| 0 <= d < o2.len() && o2[d] == x;
            if b < a {
                assert(o2[b] == y);
            }
            if d < a {
                assert(o1[d] == x);
            }
            assert(b > a && d > a);
            assert(merge_before(c, o1[a], o1[b]));
            assert(merge_before(c, o2[a], o2[d]));
        }
    }
}

/// The merge list of a vocabulary is unique: the ranking by score, ties in
/// vocabulary order, leaves no freedom.
pub proof fn law_merge_list_unique(
    tokens: Seq<Seq<char>>,
    scores: Seq<u32>,
    m1: Seq<(Seq<char>, Seq<char>)>,
    m2: Seq<(Seq<char>, Seq<char>)>,
)
    requires
        is_merge_list(tokens, scores, m1),
        is_merge_list(tokens, scores, m2),
    ensures
        m1 == m2,
{
    let c = merge_candidates(tokens, scores, tokens.len() as int);
    let o1 = choose|o: Seq<int>|
        #![trigger is_merge_order(c, o)]
        is_merge_order(c, o) && m1.len() == o.len() && forall|a: int|
            0 <= a < m1.len() ==> #[trigger] m1[a] == (c[o[a]].0, c[o[a]].1);
    let o2 = choose|o: Seq<int>|
        #![trigger is_merge_order(c, o)]
        is_merge_order(c, o) && m2.len() == o.len() && forall|a: int|
            0 <= a < m2.len() ==> #[trigger] m2[a] == (c[o[a]].0, c[o[a]].1);
    lemma_orders_agree(c, o1, o2, o1.len() as int);
    assert(m1 =~= m2) by {
        assert forall|a: int| 0 <= a < m1.len() implies m1[a] == m2[a] by {
            assert(o1[a] == o2[a]);
        }
    }
}

} // verus!
