//! Ranking chunks against a query.
//!
//! Items are ranked by integer keys, higher first, earlier first among equal
//! keys. Keyword retrieval computes its keys here; similarity scores, which are
//! floating-point, are turned into order-preserving integer keys by the caller.

use vstd::prelude::*;
use crate::chunking::Chunk;
use crate::text::{words, contains_seq, lowercase, split_words, contains_chars, lowercase_chars};

verus! {

/// Item `i` ranks before item `j`: a higher key, or an equal key and an earlier index.
pub open spec fn ranks_before(keys: Seq<int>, i: int, j: int) -> bool {
    keys[i] > keys[j] || (keys[i] == keys[j] && i < j)
}

/// Item `i` takes part in the ranking: it exists and its key reaches `min_key`.
pub open spec fn eligible(keys: Seq<int>, min_key: int, i: int) -> bool {
    0 <= i < keys.len() && keys[i] >= min_key
}

/// `r` lists the (at most `k`) best eligible items, best first.
pub open spec fn is_top_ranking(keys: Seq<int>, min_key: int, k: nat, r: Seq<usize>) -> bool {
    &&& r.len() <= k
    &&& forall|a: int| 0 <= a < r.len() ==> eligible(keys, min_key, #[trigger] r[a] as int)
    &&& forall|a: int, b: int| 0 <= a < b < r.len() ==> ranks_before(keys, #[trigger] r[a] as int, #[trigger] r[b] as int)
    &&& forall|i: int, a: int|
        #![trigger eligible(keys, min_key, i), r[a]]
        eligible(keys, min_key, i) && !r.contains(i as usize) && 0 <= a < r.len()
            ==> ranks_before(keys, r[a] as int, i)
    &&& r.len() == k || forall|i: int| eligible(keys, min_key, i) ==> r.contains(i as usize)
}

/// Two top rankings agree on their first `a + 1` positions.
proof fn lemma_rankings_agree_upto(keys: Seq<int>, min_key: int, k: nat, r1: Seq<usize>, r2: Seq<usize>, a: int)
    requires
        is_top_ranking(keys, min_key, k, r1),
        is_top_ranking(keys, min_key, k, r2),
        0 <= a < r1.len(),
        a < r2.len(),
    ensures
        forall|c: int| 0 <= c <= a ==> r1[c] == r2[c],
    decreases a,
{
    if a > 0 {
        lemma_rankings_agree_upto(keys, min_key, k, r1, r2, a - 1);
    }
    let x = r1[a];
    let y = r2[a];
    if x != y {
        assert(ranks_before(keys, x as int, y as int)) by {
            if r1.contains(y) {
                let b = choose|b: int| 0 <= b < r1.len() && r1[b] == y;
                if b < a {
                    assert(r2[b] == y);
                    assert(ranks_before(keys, r2[b] as int, r2[a] as int));
                } else {
                    assert(b != a);
                    assert(ranks_before(keys, r1[a] as int, r1[b] as int));
                }
            } else {
                assert(eligible(keys, min_key, r2[a] as int));
                assert(eligible(keys, min_key, y as int) && !r1.contains(y as int as usize));
            }
        }
        assert(ranks_before(keys, y as int, x as int)) by {
            if r2.contains(x) {
                let b = choose|b: int| 0 <= b < r2.len() && r2[b] == x;
                if b < a {
                    assert(r1[b] == x);
                    assert(ranks_before(keys, r1[b] as int, r1[a] as int));
                } else {
                    assert(b != a);
                    assert(ranks_before(keys, r2[a] as int, r2[b] as int));
                }
            } else {
                assert(eligible(keys, min_key, r1[a] as int));
                assert(eligible(keys, min_key, x as int) && !r2.contains(x as int as usize));
            }
        }
    }
}

/// A top ranking that stops before `k` items holds every eligible item, so no
/// other top ranking can be longer.
proof fn lemma_ranking_len(keys: Seq<int>, min_key: int, k: nat, r1: Seq<usize>, r2: Seq<usize>)
    requires
        is_top_ranking(keys, min_key, k, r1),
        is_top_ranking(keys, min_key, k, r2),
    ensures
        r2.len() <= r1.len(),
{
    if r1.len() < r2.len() {
        let n = r1.len() as int;
        if n > 0 {
            lemma_rankings_agree_upto(keys, min_key, k, r1, r2, n - 1);
        }
        let y = r2[n];
        assert(eligible(keys, min_key, y as int));
        assert(r1.contains(y as int as usize));
        let b = choose|b: int| 0 <= b < r1.len() && r1[b] == y;
        assert(r2[b] == y);
        assert(ranks_before(keys, r2[b] as int, r2[n] as int));
    }
}

/// A top ranking is determined by the keys, the threshold and `k`: any two agree.
pub proof fn lemma_top_ranking_unique(keys: Seq<int>, min_key: int, k: nat, r1: Seq<usize>, r2: Seq<usize>)
    requires
        is_top_ranking(keys, min_key, k, r1),
        is_top_ranking(keys, min_key, k, r2),
    ensures
        r1 == r2,
{
    lemma_ranking_len(keys, min_key, k, r1, r2);
    lemma_ranking_len(keys, min_key, k, r2, r1);
    if r1.len() > 0 {
        lemma_rankings_agree_upto(keys, min_key, k, r1, r2, r1.len() - 1);
    }
    assert(r1 =~= r2);
}

/// Keys as mathematical integers.
pub open spec fn int_keys(keys: Seq<u128>) -> Seq<int> {
    keys.map_values(|x: u128| x as int)
}

/// The indices of the (at most `k`) eligible items with the highest keys,
/// best first; among equal keys the earlier item comes first.
pub fn rank_top_k(keys: &Vec<u128>, min_key: u128, k: usize) -> (r: Vec<usize>)
    ensures
        is_top_ranking(int_keys(keys@), min_key as int, k as nat, r@),
{
    let ghost ks = int_keys(keys@);
    let ghost mk = min_key as int;
    let n = keys.len();
    let mut chosen: Vec<bool> = Vec::new();
    let mut t: usize = 0;
    while t < n
        invariant
            t <= n,
            chosen@.len() == t,
            forall|i: int| 0 <= i < t ==> !#[trigger] chosen@[i],
        decreases n - t,
    {
        chosen.push(false);
        t = t + 1;
    }
    let mut r: Vec<usize> = Vec::new();
    while r.len() < k
        invariant
            n == keys@.len(),
            ks == int_keys(keys@),
            mk == min_key as int,
            chosen@.len() == n,
            r@.len() <= k,
            forall|i: int| 0 <= i < n ==> (#[trigger] chosen@[i] <==> r@.contains(i as usize)),
            forall|a: int| 0 <= a < r@.len() ==> eligible(ks, mk, #[trigger] r@[a] as int),
            forall|a: int, b: int| 0 <= a < b < r@.len() ==> ranks_before(ks, #[trigger] r@[a] as int, #[trigger] r@[b] as int),
            forall|i: int, a: int|
                #![trigger eligible(ks, mk, i), r@[a]]
                eligible(ks, mk, i) && !r@.contains(i as usize) && 0 <= a < r@.len()
                    ==> ranks_before(ks, r@[a] as int, i),
        decreases k - r@.len(),
    {
        let mut best: Option<usize> = None;
        let mut i: usize = 0;
        while i < n
            invariant
                n == keys@.len(),
                ks == int_keys(keys@),
                mk == min_key as int,
                chosen@.len() == n,
                i <= n,
                best matches Some(b) ==> b < i && eligible(ks, mk, b as int) && !chosen@[b as int],
                forall|j: int| 0 <= j < i && eligible(ks, mk, j) && !chosen@[j] ==> (best matches Some(b) && (b == j || ranks_before(ks, b as int, j))),
            decreases n - i,
        {
            if keys[i] >= min_key && !chosen[i] {
                match best {
                    None => {
                        best = Some(i);
                    },
                    Some(b) => {
                        if keys[i] > keys[b] {
                            best = Some(i);
                        }
                    },
                }
            }
            i = i + 1;
        }
        match best {
            None => {
                assert forall|j: int| eligible(ks, mk, j) implies r@.contains(j as usize) by {
                    assert(chosen@[j]);
                }
                return r;
            },
            Some(b) => {
                let ghost old_r = r@;
                let ghost old_chosen = chosen@;
                r.push(b);
                chosen.set(b, true);
                assert forall|j: int| 0 <= j < n implies (#[trigger] chosen@[j] <==> r@.contains(j as usize)) by {
                    if j == b {
                        assert(r@[r@.len() - 1] == b);
                    } else {
                        if old_r.contains(j as usize) {
                            let x = choose|x: int| 0 <= x < old_r.len() && old_r[x] == j as usize;
                            assert(r@[x] == j as usize);
                        }
                        if r@.contains(j as usize) {
                            let x = choose|x: int| 0 <= x < r@.len() && r@[x] == j as usize;
                            assert(x < old_r.len());
                            assert(old_r[x] == j as usize);
                        }
                    }
                }
                assert forall|a: int, c: int| 0 <= a < c < r@.len() implies ranks_before(ks, #[trigger] r@[a] as int, #[trigger] r@[c] as int) by {
                    if c == r@.len() - 1 {
                        assert(!old_r.contains(b));
                    }
                }
                assert forall|j: int, a: int|
                    #![trigger eligible(ks, mk, j), r@[a]]
                    eligible(ks, mk, j) && !r@.contains(j as usize) && 0 <= a < r@.len()
                        implies ranks_before(ks, r@[a] as int, j) by {
                    assert(!old_r.contains(j as usize)) by {
                        if old_r.contains(j as usize) {
                            let x = choose|x: int| 0 <= x < old_r.len() && old_r[x] == j as usize;
                            assert(r@[x] == j as usize);
                        }
                    }
                    if a < old_r.len() {
                        assert(r@[a] == old_r[a]);
                    } else {
                        assert(r@[r@.len() - 1] == b);
                        assert(j != b);
                        assert(!old_chosen[j]);
                    }
                }
            },
        }
    }
    r
}


/// How many of the words `cs` contain the word `q`.
pub open spec fn word_hits(q: Seq<char>, cs: Seq<Seq<char>>) -> nat
    decreases cs.len(),
{
    if cs.len() == 0 {
        0
    } else {
        word_hits(q, cs.drop_last()) + if contains_seq(cs.last(), q) {
            1nat
        } else {
            0nat
        }
    }
}

/// How many (query word, text word) pairs match: the text word contains the query word.
pub open spec fn total_hits(qs: Seq<Seq<char>>, cs: Seq<Seq<char>>) -> nat
    decreases qs.len(),
{
    if qs.len() == 0 {
        0
    } else {
        total_hits(qs.drop_last(), cs) + word_hits(qs.last(), cs)
    }
}

/// Each word in lowercase.
pub open spec fn lowered(ws: Seq<Seq<char>>) -> Seq<Seq<char>> {
    Seq::new(ws.len(), |i: int| lowercase(ws[i]))
}

/// The keyword relevance of `content` to `query`, before it is divided by the
/// number of query words: the matching pairs of their lowercased words.
pub open spec fn keyword_hits(query: Seq<char>, content: Seq<char>) -> nat {
    total_hits(lowered(words(query)), lowered(words(content)))
}

/// A word is counted when some text word contains it.
proof fn lemma_word_hits_positive(q: Seq<char>, cs: Seq<Seq<char>>)
    ensures
        word_hits(q, cs) > 0 <==> exists|j: int| 0 <= j < cs.len() && contains_seq(#[trigger] cs[j], q),
    decreases cs.len(),
{
    if cs.len() > 0 {
        let prev = cs.drop_last();
        lemma_word_hits_positive(q, prev);
        if exists|j: int| 0 <= j < cs.len() && contains_seq(#[trigger] cs[j], q) {
            let j = choose|j: int| 0 <= j < cs.len() && contains_seq(#[trigger] cs[j], q);
            if j < cs.len() - 1 {
                assert(prev[j] == cs[j]);
            }
        }
        if exists|j: int| 0 <= j < prev.len() && contains_seq(#[trigger] prev[j], q) {
            let j = choose|j: int| 0 <= j < prev.len() && contains_seq(#[trigger] prev[j], q);
            assert(cs[j] == prev[j]);
        }
    }
}

/// Some pair matches exactly when some text word contains some query word.
proof fn lemma_total_hits_positive(qs: Seq<Seq<char>>, cs: Seq<Seq<char>>)
    ensures
        total_hits(qs, cs) > 0 <==> exists|i: int, j: int|
            0 <= i < qs.len() && 0 <= j < cs.len() && contains_seq(#[trigger] cs[j], #[trigger] qs[i]),
    decreases qs.len(),
{
    if qs.len() > 0 {
        let prev = qs.drop_last();
        lemma_total_hits_positive(prev, cs);
        lemma_word_hits_positive(qs.last(), cs);
        if exists|i: int, j: int| 0 <= i < qs.len() && 0 <= j < cs.len() && contains_seq(#[trigger] cs[j], #[trigger] qs[i]) {
            let (i, j) = choose|i: int, j: int| 0 <= i < qs.len() && 0 <= j < cs.len() && contains_seq(#[trigger] cs[j], #[trigger] qs[i]);
            if i < qs.len() - 1 {
                assert(prev[i] == qs[i]);
            }
        }
        if exists|i: int, j: int| 0 <= i < prev.len() && 0 <= j < cs.len() && contains_seq(#[trigger] cs[j], #[trigger] prev[i]) {
            let (i, j) = choose|i: int, j: int| 0 <= i < prev.len() && 0 <= j < cs.len() && contains_seq(#[trigger] cs[j], #[trigger] prev[i]);
            assert(qs[i] == prev[i]);
        }
    }
}

/// Keyword matching ignores case on both sides: a text is relevant to a query
/// exactly when some lowercased word of the text contains some lowercased
/// word of the query.
pub proof fn lemma_keyword_hits_positive(query: Seq<char>, content: Seq<char>)
    ensures
        keyword_hits(query, content) > 0 <==> exists|i: int, j: int|
            0 <= i < words(query).len() && 0 <= j < words(content).len() && contains_seq(
                #[trigger] lowercase(words(content)[j]),
                #[trigger] lowercase(words(query)[i]),
            ),
{
    let qs = lowered(words(query));
    let cs = lowered(words(content));
    lemma_total_hits_positive(qs, cs);
    if exists|i: int, j: int| 0 <= i < qs.len() && 0 <= j < cs.len() && contains_seq(#[trigger] cs[j], #[trigger] qs[i]) {
        let (i, j) = choose|i: int, j: int| 0 <= i < qs.len() && 0 <= j < cs.len() && contains_seq(#[trigger] cs[j], #[trigger] qs[i]);
        assert(contains_seq(lowercase(words(content)[j]), lowercase(words(query)[i])));
    }
    if exists|i: int, j: int| 0 <= i < words(query).len() && 0 <= j < words(content).len() && contains_seq(
        #[trigger] lowercase(words(content)[j]),
        #[trigger] lowercase(words(query)[i]),
    ) {
        let (i, j) = choose|i: int, j: int| 0 <= i < words(query).len() && 0 <= j < words(content).len() && contains_seq(
            #[trigger] lowercase(words(content)[j]),
            #[trigger] lowercase(words(query)[i]),
        );
        assert(contains_seq(cs[j], qs[i]));
    }
}

/// The case of the words does not matter: two queries whose words lowercase to
/// the same words, against two texts whose words lowercase to the same words,
/// give the same relevance.
pub proof fn lemma_keyword_hits_ignore_case(q1: Seq<char>, q2: Seq<char>, c1: Seq<char>, c2: Seq<char>)
    requires
        words(q1).len() == words(q2).len(),
        forall|i: int| 0 <= i < words(q1).len() ==> lowercase(#[trigger] words(q1)[i]) == lowercase(words(q2)[i]),
        words(c1).len() == words(c2).len(),
        forall|j: int| 0 <= j < words(c1).len() ==> lowercase(#[trigger] words(c1)[j]) == lowercase(words(c2)[j]),
    ensures
        keyword_hits(q1, c1) == keyword_hits(q2, c2),
{
    assert(lowered(words(q1)) =~= lowered(words(q2)));
    assert(lowered(words(c1)) =~= lowered(words(c2)));
}

/// The texts held by a list of character vectors.
pub open spec fn char_seqs(v: Seq<Vec<char>>) -> Seq<Seq<char>> {
    Seq::new(v.len(), |i: int| v[i]@)
}

/// The number of (query word, text word) pairs in which the text word
/// contains the query word.
pub fn count_pair_matches(qs: &Vec<Vec<char>>, cs: &Vec<Vec<char>>) -> (h: u128)
    ensures
        h == total_hits(char_seqs(qs@), char_seqs(cs@)),
{
    let ghost q = char_seqs(qs@);
    let ghost c = char_seqs(cs@);
    let n = qs.len();
    let m = cs.len();
    let mut count: u128 = 0;
    let mut a: usize = 0;
    while a < n
        invariant
            n == qs@.len(),
            m == cs@.len(),
            q == char_seqs(qs@),
            c == char_seqs(cs@),
            a <= n,
            count == total_hits(q.subrange(0, a as int), c),
            count <= a * m,
        decreases n - a,
    {
        let mut b: usize = 0;
        let mut inner: u128 = 0;
        while b < m
            invariant
                n == qs@.len(),
                m == cs@.len(),
                q == char_seqs(qs@),
                c == char_seqs(cs@),
                a < n,
                b <= m,
                inner == word_hits(q[a as int], c.subrange(0, b as int)),
                inner <= b,
            decreases m - b,
        {
            assert(c.subrange(0, b + 1).drop_last() =~= c.subrange(0, b as int));
            if contains_chars(&cs[b], &qs[a]) {
                inner = inner + 1;
            }
            b = b + 1;
        }
        assert(c.subrange(0, m as int) =~= c);
        assert(q.subrange(0, a + 1).drop_last() =~= q.subrange(0, a as int));
        assert(count + inner <= (a + 1) * m) by (nonlinear_arith)
            requires
                count <= a * m,
                inner <= m,
        ;
        assert((a + 1) * m <= n * m) by (nonlinear_arith)
            requires
                a < n,
        ;
        assert(n * m <= 0xffff_ffff_ffff_ffff * 0xffff_ffff_ffff_ffffu128) by (nonlinear_arith)
            requires
                n <= 0xffff_ffff_ffff_ffffu64,
                m <= 0xffff_ffff_ffff_ffffu64,
        ;
        count = count + inner;
        a = a + 1;
    }
    assert(q.subrange(0, n as int) =~= q);
    count
}

/// The words of `text`, each in lowercase.
fn lowered_words(text: &str) -> (r: Vec<Vec<char>>)
    ensures
        char_seqs(r@) == lowered(words(text@)),
{
    let w = split_words(text);
    let ghost ws = words(text@);
    let mut r: Vec<Vec<char>> = Vec::new();
    let mut j: usize = 0;
    while j < w.len()
        invariant
            j <= w@.len(),
            w@.len() == ws.len(),
            forall|t: int| 0 <= t < w@.len() ==> #[trigger] w@[t]@ == ws[t],
            r@.len() == j,
            forall|t: int| 0 <= t < j ==> #[trigger] r@[t]@ == lowercase(ws[t]),
        decreases w@.len() - j,
    {
        let l = lowercase_chars(&w[j]);
        r.push(l);
        j = j + 1;
    }
    assert(char_seqs(r@) =~= lowered(words(text@)));
    r
}

/// A chunk found by keyword retrieval. Its relevance score is `hits`
/// divided by `query_words` (or `hits` itself for a query without words).
#[derive(Debug)]
pub struct KeywordMatch {
    /// The retrieved chunk
    pub chunk: Chunk,
    /// Matching (query word, chunk word) pairs
    pub hits: u128,
    /// The number of words of the query
    pub query_words: usize,
}

/// A retriever that searches for the query's words in chunks.
pub struct KeywordRetriever {
    chunks: Vec<Chunk>,
}

impl View for KeywordRetriever {
    type V = Seq<Chunk>;

    closed spec fn view(&self) -> Seq<Chunk> {
        self.chunks@
    }
}

/// The keyword relevance of each of `chunks` to `query`.
pub open spec fn keyword_keys(query: Seq<char>, chunks: Seq<Chunk>) -> Seq<int> {
    Seq::new(chunks.len(), |i: int| keyword_hits(query, chunks[i].content@) as int)
}

impl KeywordRetriever {
    /// A keyword retriever over `chunks`.
    pub fn new(chunks: Vec<Chunk>) -> (r: KeywordRetriever)
        ensures
            r@ == chunks@,
    {
        KeywordRetriever { chunks }
    }

    /// The (at most `top_k`) chunks that match at least one query word, the
    /// most matching pairs first, and among equally relevant ones the earlier chunk first.
    pub fn retrieve(&self, query: &str, top_k: usize) -> (res: Vec<KeywordMatch>)
        ensures
            exists|r: Seq<usize>|
                {
                    &&& is_top_ranking(keyword_keys(query@, self@), 1, top_k as nat, r)
                    &&& res@.len() == r.len()
                    &&& forall|a: int|
                        0 <= a < r.len() ==> {
                            &&& (#[trigger] res@[a]).chunk@ == self@[r[a] as int]@
                            &&& res@[a].hits == keyword_hits(query@, self@[r[a] as int].content@)
                            &&& res@[a].query_words == words(query@).len()
                        }
                },
    {
        let lq = lowered_words(query);
        let mut keys: Vec<u128> = Vec::new();
        let mut i: usize = 0;
        while i < self.chunks.len()
            invariant
                i <= self.chunks@.len(),
                char_seqs(lq@) == lowered(words(query@)),
                keys@.len() == i,
                forall|t: int| 0 <= t < i ==> #[trigger] keys@[t] == keyword_hits(query@, self.chunks@[t].content@),
            decreases self.chunks@.len() - i,
        {
            let lc = lowered_words(self.chunks[i].content.as_str());
            let h = count_pair_matches(&lq, &lc);
            keys.push(h);
            i = i + 1;
        }
        let ranked = rank_top_k(&keys, 1, top_k);
        assert(int_keys(keys@) =~= keyword_keys(query@, self@));
        let mut res: Vec<KeywordMatch> = Vec::new();
        let mut a: usize = 0;
        while a < ranked.len()
            invariant
                a <= ranked@.len(),
                is_top_ranking(keyword_keys(query@, self@), 1, top_k as nat, ranked@),
                keys@.len() == self.chunks@.len(),
                forall|t: int| 0 <= t < keys@.len() ==> #[trigger] keys@[t] == keyword_hits(query@, self.chunks@[t].content@),
                lq@.len() == words(query@).len(),
                res@.len() == a,
                forall|c: int|
                    0 <= c < a ==> {
                        &&& (#[trigger] res@[c]).chunk@ == self@[ranked@[c] as int]@
                        &&& res@[c].hits == keyword_hits(query@, self@[ranked@[c] as int].content@)
                        &&& res@[c].query_words == words(query@).len()
                    },
            decreases ranked@.len() - a,
        {
            let idx = ranked[a];
            assert(eligible(keyword_keys(query@, self@), 1, ranked@[a as int] as int));
            let m = KeywordMatch {
                chunk: self.chunks[idx].clone(),
                hits: keys[idx],
                query_words: lq.len(),
            };
            res.push(m);
            a = a + 1;
        }
        res
    }
}

} // verus!
