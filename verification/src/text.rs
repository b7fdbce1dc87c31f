//! Character-level text utilities shared by the chunking, retrieval and
//! generation modules.

use vstd::prelude::*;

verus! {

/// The Unicode `White_Space` property, as `char::is_whitespace` tests it.
pub open spec fn is_ws(c: char) -> bool {
    let u = c as u32;
    ||| 0x09 <= u <= 0x0d
    ||| u == 0x20
    ||| u == 0x85
    ||| u == 0xa0
    ||| u == 0x1680
    ||| 0x2000 <= u <= 0x200a
    ||| u == 0x2028
    ||| u == 0x2029
    ||| u == 0x202f
    ||| u == 0x205f
    ||| u == 0x3000
}

/// Whether `c` is a whitespace character.
pub fn is_whitespace_char(c: char) -> (b: bool)
    ensures
        b == is_ws(c),
{
    let u = c as u32;
    (0x09 <= u && u <= 0x0d) || u == 0x20 || u == 0x85 || u == 0xa0 || u == 0x1680 || (0x2000
        <= u && u <= 0x200a) || u == 0x2028 || u == 0x2029 || u == 0x202f || u == 0x205f || u
        == 0x3000
}

/// The characters of a string slice, collected into a vector.
pub fn chars_of(s: &str) -> (v: Vec<char>)
    ensures
        v@ == s@,
{
    let mut v: Vec<char> = Vec::new();
    for c in it: s.chars()
        invariant
            v@ == it.history(),
    {
        v.push(c);
    }
    v
}


/// Text with leading whitespace removed.
pub open spec fn trim_start(s: Seq<char>) -> Seq<char>
    decreases s.len(),
{
    if s.len() > 0 && is_ws(s[0]) {
        trim_start(s.drop_first())
    } else {
        s
    }
}

/// Text with trailing whitespace removed.
pub open spec fn trim_end(s: Seq<char>) -> Seq<char>
    decreases s.len(),
{
    if s.len() > 0 && is_ws(s.last()) {
        trim_end(s.drop_last())
    } else {
        s
    }
}

/// Text with leading and trailing whitespace removed, as `str::trim` does.
pub open spec fn trim(s: Seq<char>) -> Seq<char> {
    trim_end(trim_start(s))
}

/// Stripping a whitespace prefix that ends before a non-whitespace character.
pub proof fn lemma_trim_start_at(s: Seq<char>, i: int)
    requires
        0 <= i <= s.len(),
        forall|j: int| 0 <= j < i ==> is_ws(#[trigger] s[j]),
        i == s.len() || !is_ws(s[i]),
    ensures
        trim_start(s) == s.subrange(i, s.len() as int),
    decreases i,
{
    if i == 0 {
        assert(s.subrange(0, s.len() as int) =~= s);
    } else {
        let t = s.drop_first();
        assert forall|j: int| 0 <= j < i - 1 implies is_ws(#[trigger] t[j]) by {
            assert(t[j] == s[j + 1]);
        }
        lemma_trim_start_at(t, i - 1);
        assert(t.subrange(i - 1, t.len() as int) =~= s.subrange(i, s.len() as int));
    }
}

/// Stripping a whitespace suffix that starts after a non-whitespace character.
pub proof fn lemma_trim_end_at(s: Seq<char>, j: int)
    requires
        0 <= j <= s.len(),
        forall|k: int| j <= k < s.len() ==> is_ws(#[trigger] s[k]),
        j == 0 || !is_ws(s[j - 1]),
    ensures
        trim_end(s) == s.subrange(0, j),
    decreases s.len() - j,
{
    if j == s.len() {
        assert(s.subrange(0, j) =~= s);
    } else {
        let t = s.drop_last();
        lemma_trim_end_at(t, j);
        assert(t.subrange(0, j) =~= s.subrange(0, j));
    }
}

/// Leading-whitespace stripping keeps a suffix that starts with a non-whitespace character.
pub proof fn lemma_trim_start_shape(s: Seq<char>)
    ensures
        trim_start(s).len() <= s.len(),
        trim_start(s) == s.subrange(s.len() - trim_start(s).len(), s.len() as int),
        trim_start(s).len() > 0 ==> !is_ws(trim_start(s)[0]),
    decreases s.len(),
{
    if s.len() > 0 && is_ws(s[0]) {
        lemma_trim_start_shape(s.drop_first());
        let t = trim_start(s.drop_first());
        assert(s.drop_first().subrange(s.len() - 1 - t.len(), s.len() - 1) =~= s.subrange(
            s.len() - t.len(),
            s.len() as int,
        ));
    } else {
        assert(s.subrange(0, s.len() as int) =~= s);
    }
}

/// Trailing-whitespace stripping keeps a prefix that ends with a non-whitespace character.
pub proof fn lemma_trim_end_shape(s: Seq<char>)
    ensures
        trim_end(s).len() <= s.len(),
        trim_end(s) == s.subrange(0, trim_end(s).len() as int),
        trim_end(s).len() > 0 ==> !is_ws(trim_end(s).last()),
    decreases s.len(),
{
    if s.len() > 0 && is_ws(s.last()) {
        lemma_trim_end_shape(s.drop_last());
        let t = trim_end(s.drop_last());
        assert(s.drop_last().subrange(0, t.len() as int) =~= s.subrange(0, t.len() as int));
    } else {
        assert(s.subrange(0, s.len() as int) =~= s);
    }
}

/// Trimmed text is a piece of the input that neither starts nor ends with whitespace.
pub proof fn lemma_trim_shape(s: Seq<char>) -> (a: int)
    ensures
        0 <= a,
        a + trim(s).len() <= s.len(),
        trim(s) == s.subrange(a, a + trim(s).len()),
        trim(s).len() > 0 ==> !is_ws(trim(s)[0]) && !is_ws(trim(s).last()),
{
    lemma_trim_start_shape(s);
    let t = trim_start(s);
    lemma_trim_end_shape(t);
    let u = trim_end(t);
    let a = s.len() - t.len();
    assert(u =~= s.subrange(a, a + u.len()));
    if u.len() > 0 {
        assert(u[0] == t[0]);
    }
    a
}

/// The bounds of the trimmed text inside `v[lo..hi]`.
pub fn trim_bounds(v: &Vec<char>, lo: usize, hi: usize) -> (r: (usize, usize))
    requires
        lo <= hi <= v.len(),
    ensures
        lo <= r.0 <= r.1 <= hi,
        v@.subrange(r.0 as int, r.1 as int) == trim(v@.subrange(lo as int, hi as int)),
{
    let mut a = lo;
    while a < hi && is_whitespace_char(v[a])
        invariant
            lo <= a <= hi <= v.len(),
            forall|k: int| lo <= k < a ==> is_ws(#[trigger] v@[k]),
        decreases hi - a,
    {
        a = a + 1;
    }
    let mut b = hi;
    while b > a && is_whitespace_char(v[b - 1])
        invariant
            lo <= a <= b <= hi <= v.len(),
            forall|k: int| b <= k < hi ==> is_ws(#[trigger] v@[k]),
        decreases b - a,
    {
        b = b - 1;
    }
    proof {
        let p = v@.subrange(lo as int, hi as int);
        assert forall|j: int| 0 <= j < a - lo implies is_ws(#[trigger] p[j]) by {
            assert(p[j] == v@[lo + j]);
        }
        lemma_trim_start_at(p, a - lo);
        let q = p.subrange(a - lo, p.len() as int);
        assert(q =~= v@.subrange(a as int, hi as int));
        assert forall|k: int| b - a <= k < q.len() implies is_ws(#[trigger] q[k]) by {
            assert(q[k] == v@[a + k]);
        }
        if b > a {
            assert(q[b - a - 1] == v@[b - 1]);
        }
        lemma_trim_end_at(q, b - a);
        assert(q.subrange(0, b - a) =~= v@.subrange(a as int, b as int));
    }
    (a, b)
}

/// Appends one character to a string by calling `String::push`. Trusted, not
/// proved: the contract claims that the string's characters afterwards are
/// the old ones followed by `c`, as std documents for `push`.
#[verifier::external_body]
pub(crate) fn push_char(s: &mut String, c: char)
    ensures
        final(s)@ == old(s)@.push(c),
{
    s.push(c);
}

/// Appends the characters of `t` to `s`.
pub(crate) fn push_str(s: &mut String, t: &str)
    ensures
        final(s)@ == old(s)@ + t@,
{
    let v = chars_of(t);
    let mut i: usize = 0;
    while i < v.len()
        invariant
            i <= v.len(),
            v@ == t@,
            s@ == old(s)@ + v@.subrange(0, i as int),
        decreases v.len() - i,
    {
        push_char(s, v[i]);
        assert(v@.subrange(0, i + 1) =~= v@.subrange(0, i as int).push(v@[i as int]));
        i = i + 1;
    }
    assert(v@.subrange(0, v@.len() as int) =~= v@);
}

/// A string holding the characters of `t`.
pub fn string_from(t: &str) -> (s: String)
    ensures
        s@ == t@,
{
    let mut s = String::new();
    push_str(&mut s, t);
    s
}

/// A string holding the characters `v[lo..hi]`.
pub fn string_of(v: &Vec<char>, lo: usize, hi: usize) -> (s: String)
    requires
        lo <= hi <= v.len(),
    ensures
        s@ == v@.subrange(lo as int, hi as int),
{
    let mut s = String::new();
    let mut i = lo;
    while i < hi
        invariant
            lo <= i <= hi <= v.len(),
            s@ == v@.subrange(lo as int, i as int),
        decreases hi - i,
    {
        push_char(&mut s, v[i]);
        assert(v@.subrange(lo as int, i + 1) =~= v@.subrange(lo as int, i as int).push(v@[i as int]));
        i = i + 1;
    }
    s
}


/// The character of a decimal digit.
pub open spec fn digit_char(d: int) -> char {
    (d + 48) as char
}

/// The decimal representation of a natural number, as `{}` formats it.
pub open spec fn decimal(n: nat) -> Seq<char>
    decreases n,
{
    if n < 10 {
        seq![digit_char(n as int)]
    } else {
        decimal(n / 10).push(digit_char((n % 10) as int))
    }
}

/// A decimal representation has at least one digit, and two or more from ten on.
pub proof fn lemma_decimal_len(n: nat)
    ensures
        decimal(n).len() >= 1,
        n >= 10 ==> decimal(n).len() >= 2,
    decreases n,
{
    if n >= 10 {
        lemma_decimal_len(n / 10);
    }
}

/// Different numbers have different decimal representations.
pub proof fn lemma_decimal_injective(n: nat, m: nat)
    requires
        decimal(n) == decimal(m),
    ensures
        n == m,
    decreases n,
{
    lemma_decimal_len(n);
    lemma_decimal_len(m);
    if n < 10 && m < 10 {
        assert(decimal(n)[0] == digit_char(n as int));
        assert(decimal(m)[0] == digit_char(m as int));
        assert((n + 48) as char as int == n + 48);
        assert((m + 48) as char as int == m + 48);
    } else if n >= 10 && m >= 10 {
        let a = decimal((n / 10) as nat);
        let b = decimal((m / 10) as nat);
        assert(decimal(n).last() == digit_char((n % 10) as int));
        assert(decimal(m).last() == digit_char((m % 10) as int));
        assert(((n % 10) + 48) as char as int == (n % 10) + 48);
        assert(((m % 10) + 48) as char as int == (m % 10) + 48);
        assert(decimal(n).drop_last() =~= a);
        assert(decimal(m).drop_last() =~= b);
        lemma_decimal_injective((n / 10) as nat, (m / 10) as nat);
    }
}

/// Appends the decimal representation of `n` to `s`.
pub fn push_decimal(s: &mut String, n: usize)
    ensures
        final(s)@ == old(s)@ + decimal(n as nat),
    decreases n,
{
    if n >= 10 {
        push_decimal(s, n / 10);
    }
    let d: u8 = (n % 10) as u8;
    let c: char = (d + 48) as char;
    assert(c == digit_char((n % 10) as int));
    push_char(s, c);
    assert(s@ =~= old(s)@ + decimal(n as nat)) by {
        if n >= 10 {
            assert(decimal(n as nat) == decimal((n / 10) as nat).push(digit_char((n % 10) as int)));
        } else {
            assert(decimal(n as nat) == seq![digit_char(n as int)]);
        }
    }
}


/// `p` occurs in `s` starting at index `i`.
pub open spec fn occurs_at(s: Seq<char>, p: Seq<char>, i: int) -> bool {
    0 <= i && i + p.len() <= s.len() && s.subrange(i, i + p.len()) == p
}

/// The leftmost occurrence of `p` in `s` at or after index `k`.
pub open spec fn find_from(s: Seq<char>, p: Seq<char>, k: int) -> Option<int>
    decreases s.len() - k,
{
    if k < 0 || k + p.len() > s.len() {
        None
    } else if occurs_at(s, p, k) {
        Some(k)
    } else if k < s.len() {
        find_from(s, p, k + 1)
    } else {
        None
    }
}

/// The pieces of `s[k..]` between the non-overlapping occurrences of the
/// non-empty separator `p`, found from left to right as `str::split` does.
pub open spec fn split_from(s: Seq<char>, p: Seq<char>, k: int) -> Seq<Seq<char>>
    decreases s.len() - k,
{
    if k < 0 || k > s.len() || p.len() == 0 {
        seq![]
    } else {
        match find_from(s, p, k) {
            Some(i) => if k <= i && i + p.len() <= s.len() {
                seq![s.subrange(k, i)] + split_from(s, p, i + p.len())
            } else {
                seq![]
            },
            None => seq![s.subrange(k, s.len() as int)],
        }
    }
}

/// The pieces put back together with the separator between them.
pub open spec fn join(pieces: Seq<Seq<char>>, sep: Seq<char>) -> Seq<char>
    decreases pieces.len(),
{
    if pieces.len() == 0 {
        seq![]
    } else if pieces.len() == 1 {
        pieces[0]
    } else {
        pieces[0] + sep + join(pieces.drop_first(), sep)
    }
}

/// Joining one more piece appends the separator and the piece.
pub proof fn lemma_join_push(pieces: Seq<Seq<char>>, sep: Seq<char>, x: Seq<char>)
    requires
        pieces.len() > 0,
    ensures
        join(pieces.push(x), sep) == join(pieces, sep) + sep + x,
    decreases pieces.len(),
{
    if pieces.len() == 1 {
        assert(pieces.push(x).drop_first() =~= seq![x]);
        assert(join(seq![x], sep) == x);
        assert(pieces.push(x)[0] == pieces[0]);
        assert(join(pieces.push(x), sep) =~= join(pieces, sep) + sep + x);
    } else {
        lemma_join_push(pieces.drop_first(), sep, x);
        assert(pieces.push(x).drop_first() =~= pieces.drop_first().push(x));
        assert(pieces.push(x)[0] == pieces[0]);
        assert(join(pieces.push(x), sep) =~= join(pieces, sep) + sep + x);
    }
}

/// The pieces of `s` between the occurrences of the separator `p`.
pub open spec fn split(s: Seq<char>, p: Seq<char>) -> Seq<Seq<char>> {
    split_from(s, p, 0)
}

/// What a found occurrence is.
pub proof fn lemma_find_from(s: Seq<char>, p: Seq<char>, k: int)
    ensures
        find_from(s, p, k) matches Some(i) ==> k <= i && occurs_at(s, p, i) && forall|j: int|
            k <= j < i ==> !occurs_at(s, p, j),
        find_from(s, p, k) is None && k >= 0 ==> forall|j: int| k <= j ==> !occurs_at(s, p, j),
    decreases s.len() - k,
{
    if k < 0 || k + p.len() > s.len() {
    } else if occurs_at(s, p, k) {
    } else if k < s.len() {
        lemma_find_from(s, p, k + 1);
    }
}

/// Splitting loses nothing: the pieces of `s[k..]`, joined with the separator,
/// give back `s[k..]`.
pub proof fn lemma_split_join(s: Seq<char>, p: Seq<char>, k: int)
    requires
        0 <= k <= s.len(),
        p.len() > 0,
    ensures
        split_from(s, p, k).len() > 0,
        join(split_from(s, p, k), p) == s.subrange(k, s.len() as int),
    decreases s.len() - k,
{
    lemma_find_from(s, p, k);
    match find_from(s, p, k) {
        Some(i) => {
            lemma_split_join(s, p, i + p.len());
            let rest = split_from(s, p, i + p.len());
            let ps = split_from(s, p, k);
            assert(ps.drop_first() =~= rest);
            assert(s.subrange(i, i + p.len()) == p);
            assert(s.subrange(k, i) + p + s.subrange(i + p.len(), s.len() as int) =~= s.subrange(
                k,
                s.len() as int,
            ));
        },
        None => {
        },
    }
}

/// An occurrence inside a piece of a text is an occurrence in the text.
pub proof fn lemma_occurs_in_subrange(s: Seq<char>, a: int, b: int, p: Seq<char>, t: int)
    requires
        0 <= a <= b <= s.len(),
        occurs_at(s.subrange(a, b), p, t),
    ensures
        occurs_at(s, p, a + t),
{
    assert(s.subrange(a, b).subrange(t, t + p.len()) =~= s.subrange(a + t, a + t + p.len()));
}

/// Splitting cuts at every occurrence, leftmost first: no piece holds the
/// separator, and none but the last holds it even with all but the last
/// character of the separator appended (so no occurrence straddles a cut).
pub proof fn lemma_split_pieces_maximal(s: Seq<char>, p: Seq<char>, k: int)
    requires
        0 <= k <= s.len(),
        p.len() > 0,
    ensures
        split_from(s, p, k).len() > 0,
        forall|i: int|
            0 <= i < split_from(s, p, k).len() - 1 ==> !contains_seq(
                #[trigger] split_from(s, p, k)[i] + p.subrange(0, p.len() - 1),
                p,
            ),
        forall|i: int| 0 <= i < split_from(s, p, k).len() ==> !contains_seq(#[trigger] split_from(s, p, k)[i], p),
    decreases s.len() - k,
{
    lemma_find_from(s, p, k);
    lemma_split_join(s, p, k);
    let ps = split_from(s, p, k);
    match find_from(s, p, k) {
        Some(i) => {
            lemma_split_pieces_maximal(s, p, i + p.len());
            let rest = split_from(s, p, i + p.len());
            assert(ps.drop_first() =~= rest);
            let first = s.subrange(k, i);
            assert(ps[0] == first);
            let ext = first + p.subrange(0, p.len() - 1);
            assert(s.subrange(i, i + p.len()) == p);
            assert(ext =~= s.subrange(k, i + p.len() - 1));
            assert(!contains_seq(ext, p)) by {
                if contains_seq(ext, p) {
                    let t = choose|t: int| occurs_at(ext, p, t);
                    lemma_occurs_in_subrange(s, k, i + p.len() - 1, p, t);
                    assert(!occurs_at(s, p, k + t));
                }
            }
            assert(!contains_seq(first, p)) by {
                if contains_seq(first, p) {
                    let t = choose|t: int| occurs_at(first, p, t);
                    lemma_occurs_in_subrange(s, k, i, p, t);
                    assert(!occurs_at(s, p, k + t));
                }
            }
            assert forall|j: int| 0 <= j < ps.len() - 1 implies !contains_seq(
                #[trigger] ps[j] + p.subrange(0, p.len() - 1),
                p,
            ) by {
                if j > 0 {
                    assert(ps[j] == rest[j - 1]);
                }
            }
            assert forall|j: int| 0 <= j < ps.len() implies !contains_seq(#[trigger] ps[j], p) by {
                if j > 0 {
                    assert(ps[j] == rest[j - 1]);
                }
            }
        },
        None => {
            let last = s.subrange(k, s.len() as int);
            assert(ps =~= seq![last]);
            assert(!contains_seq(last, p)) by {
                if contains_seq(last, p) {
                    let t = choose|t: int| occurs_at(last, p, t);
                    lemma_occurs_in_subrange(s, k, s.len() as int, p, t);
                }
            }
        },
    }
}

/// The leftmost occurrence of `pat` in `v` at or after index `k`.
pub fn find_pattern(v: &Vec<char>, pat: &Vec<char>, k: usize) -> (r: Option<usize>)
    requires
        k <= v.len(),
    ensures
        r matches Some(i) ==> find_from(v@, pat@, k as int) == Some(i as int),
        r is None ==> find_from(v@, pat@, k as int) is None,
{
    let n = v.len();
    let m = pat.len();
    if m > n {
        return None;
    }
    let mut i = k;
    while i <= n - m
        invariant
            k <= i <= n,
            m == pat@.len(),
            n == v@.len(),
            m <= n,
            find_from(v@, pat@, k as int) == find_from(v@, pat@, i as int),
        decreases n - i,
    {
        let mut j: usize = 0;
        let mut same = true;
        while j < m
            invariant
                0 <= j <= m,
                i + m <= n,
                m == pat@.len(),
                n == v@.len(),
                same == (forall|t: int| 0 <= t < j ==> v@[i + t] == pat@[t]),
            decreases m - j,
        {
            if v[i + j] != pat[j] {
                same = false;
            }
            j = j + 1;
        }
        if same {
            assert(v@.subrange(i as int, i + m) =~= pat@);
            return Some(i);
        }
        assert(!occurs_at(v@, pat@, i as int)) by {
            if occurs_at(v@, pat@, i as int) {
                assert forall|t: int| 0 <= t < m implies v@[i + t] == pat@[t] by {
                    assert(v@.subrange(i as int, i + m)[t] == v@[i + t]);
                }
            }
        }
        i = i + 1;
    }
    None
}


/// The whitespace-separated words of `s`, as `str::split_whitespace` yields them.
pub open spec fn words(s: Seq<char>) -> Seq<Seq<char>>
    decreases s.len(),
{
    if s.len() == 0 {
        seq![]
    } else {
        let ws = words(s.drop_last());
        let c = s.last();
        if is_ws(c) {
            ws
        } else if s.len() >= 2 && !is_ws(s[s.len() - 2]) {
            ws.update(ws.len() - 1, ws.last().push(c))
        } else {
            ws.push(seq![c])
        }
    }
}

/// The words of `s`.
pub fn split_words(s: &str) -> (r: Vec<Vec<char>>)
    ensures
        r@.len() == words(s@).len(),
        forall|i: int| 0 <= i < r@.len() ==> #[trigger] r@[i]@ == words(s@)[i],
{
    let v = chars_of(s);
    let mut r: Vec<Vec<char>> = Vec::new();
    let mut cur: Vec<char> = Vec::new();
    let mut in_word = false;
    let mut i: usize = 0;
    while i < v.len()
        invariant
            v@ == s@,
            i <= v.len(),
            in_word == (i > 0 && !is_ws(v@[i - 1])),
            in_word ==> cur@.len() > 0,
            ({
                let ws = words(v@.subrange(0, i as int));
                if in_word {
                    &&& ws.len() == r@.len() + 1
                    &&& ws.last() == cur@
                    &&& forall|j: int| 0 <= j < r@.len() ==> #[trigger] r@[j]@ == ws[j]
                } else {
                    &&& ws.len() == r@.len()
                    &&& forall|j: int| 0 <= j < r@.len() ==> #[trigger] r@[j]@ == ws[j]
                }
            }),
        decreases v.len() - i,
    {
        let c = v[i];
        let ghost prefix = v@.subrange(0, i + 1);
        assert(prefix.drop_last() =~= v@.subrange(0, i as int));
        assert(prefix.last() == c);
        if is_whitespace_char(c) {
            if in_word {
                let w = cur;
                r.push(w);
                cur = Vec::new();
            }
            in_word = false;
        } else {
            if in_word {
                assert(prefix[prefix.len() - 2] == v@[i - 1]);
                cur.push(c);
            } else {
                if i > 0 {
                    assert(prefix[prefix.len() - 2] == v@[i - 1]);
                }
                cur = Vec::new();
                cur.push(c);
                assert(cur@ =~= seq![c]);
            }
            in_word = true;
        }
        i = i + 1;
        proof {
            let ws = words(v@.subrange(0, i as int));
            if in_word {
                assert forall|j: int| 0 <= j < r@.len() implies #[trigger] r@[j]@ == ws[j] by {
                }
            }
        }
    }
    if in_word {
        r.push(cur);
    }
    proof {
        assert(v@.subrange(0, v@.len() as int) =~= v@);
        let ws = words(v@);
        assert forall|j: int| 0 <= j < r@.len() implies #[trigger] r@[j]@ == ws[j] by {
        }
    }
    r
}

/// A text holds at most half as many words as characters, rounded up.
pub proof fn lemma_words_len(s: Seq<char>)
    ensures
        2 * words(s).len() <= s.len() + if s.len() > 0 && !is_ws(s.last()) { 1int } else { 0int },
        s.len() > 0 && !is_ws(s.last()) ==> words(s).len() > 0,
    decreases s.len(),
{
    if s.len() > 0 {
        let t = s.drop_last();
        lemma_words_len(t);
        if !is_ws(s.last()) && s.len() >= 2 && !is_ws(s[s.len() - 2]) {
            assert(t.last() == s[s.len() - 2]);
        }
        if !is_ws(s.last()) && s.len() >= 2 && is_ws(s[s.len() - 2]) {
            assert(t.last() == s[s.len() - 2]);
        }
    }
}

/// Words do not run across whitespace: the words of `x + y` are those of `x`
/// followed by those of `y` when `x` ends or `y` starts with whitespace (or
/// either is empty).
pub proof fn lemma_words_concat(x: Seq<char>, y: Seq<char>)
    requires
        x.len() == 0 || y.len() == 0 || is_ws(x.last()) || is_ws(y[0]),
    ensures
        words(x + y) == words(x) + words(y),
    decreases y.len(),
{
    if y.len() == 0 {
        assert(x + y =~= x);
        assert(words(x) + words(y) =~= words(x));
    } else {
        let s = x + y;
        let y1 = y.drop_last();
        let c = y.last();
        assert(s.drop_last() =~= x + y1);
        assert(s.last() == c);
        if y1.len() > 0 {
            assert(y1[0] == y[0]);
        }
        lemma_words_concat(x, y1);
        let wx = words(x);
        let wy1 = words(y1);
        if is_ws(c) {
        } else if s.len() >= 2 && !is_ws(s[s.len() - 2]) {
            if y1.len() == 0 {
                assert(s[s.len() - 2] == x.last());
                assert(y[0] == c);
            } else {
                assert(s[s.len() - 2] == y1.last());
                assert(y[y.len() - 2] == y1.last());
                lemma_words_len(y1);
                assert((wx + wy1).last() == wy1.last());
                assert((wx + wy1).update((wx + wy1).len() - 1, wy1.last().push(c)) =~= wx
                    + wy1.update(wy1.len() - 1, wy1.last().push(c)));
            }
        } else {
            if y1.len() > 0 {
                assert(s[s.len() - 2] == y1.last());
                assert(y[y.len() - 2] == y1.last());
            }
            assert((wx + wy1).push(seq![c]) =~= wx + wy1.push(seq![c]));
        }
    }
}

/// A single whitespace character holds no word.
pub proof fn lemma_words_blank(c: char)
    requires
        is_ws(c),
    ensures
        words(seq![c]) == Seq::<Seq<char>>::empty(),
{
    let s = seq![c];
    assert(s.drop_last() =~= Seq::<char>::empty());
    assert(s.last() == c);
    assert(words(s.drop_last()) =~= Seq::<Seq<char>>::empty());
}

/// Trimming keeps the words.
pub proof fn lemma_words_trim(s: Seq<char>)
    ensures
        words(trim(s)) == words(s),
{
    lemma_words_trim_start(s);
    lemma_words_trim_end(trim_start(s));
}

proof fn lemma_words_trim_start(s: Seq<char>)
    ensures
        words(trim_start(s)) == words(s),
    decreases s.len(),
{
    if s.len() > 0 && is_ws(s[0]) {
        let r = s.drop_first();
        lemma_words_trim_start(r);
        assert(s =~= seq![s[0]] + r);
        lemma_words_concat(seq![s[0]], r);
        lemma_words_blank(s[0]);
        assert(words(seq![s[0]]) + words(r) =~= words(r));
    }
}

proof fn lemma_words_trim_end(s: Seq<char>)
    ensures
        words(trim_end(s)) == words(s),
    decreases s.len(),
{
    if s.len() > 0 && is_ws(s.last()) {
        lemma_words_trim_end(s.drop_last());
    }
}

/// The words of each text, in order.
pub open spec fn words_in(ts: Seq<Seq<char>>) -> Seq<Seq<char>>
    decreases ts.len(),
{
    if ts.len() == 0 {
        seq![]
    } else {
        words(ts[0]) + words_in(ts.drop_first())
    }
}

/// One more text adds its words at the end.
pub proof fn lemma_words_in_push(ts: Seq<Seq<char>>, x: Seq<char>)
    ensures
        words_in(ts.push(x)) == words_in(ts) + words(x),
    decreases ts.len(),
{
    let u = ts.push(x);
    if ts.len() == 0 {
        assert(u.drop_first() =~= Seq::<Seq<char>>::empty());
        assert(u[0] == x);
        assert(words_in(u.drop_first()) =~= Seq::<Seq<char>>::empty());
        assert(words_in(u) =~= words(x));
        assert(words_in(ts) + words(x) =~= words(x));
    } else {
        assert(u.drop_first() =~= ts.drop_first().push(x));
        assert(u[0] == ts[0]);
        lemma_words_in_push(ts.drop_first(), x);
        assert(words_in(u) =~= words_in(ts) + words(x));
    }
}

/// Texts joined with spaces hold the words of each text, in order.
pub proof fn lemma_words_join(ts: Seq<Seq<char>>)
    ensures
        words(join(ts, seq![' '])) == words_in(ts),
    decreases ts.len(),
{
    let sep = seq![' '];
    assert(is_ws(' '));
    if ts.len() == 0 {
    } else if ts.len() == 1 {
        assert(ts.drop_first() =~= Seq::<Seq<char>>::empty());
        assert(words(ts[0]) + words_in(ts.drop_first()) =~= words(ts[0]));
    } else {
        let rest = ts.drop_first();
        lemma_words_join(rest);
        let j = join(rest, sep);
        assert(join(ts, sep) == ts[0] + sep + j);
        lemma_words_concat(ts[0], sep);
        lemma_words_blank(' ');
        assert((ts[0] + sep).last() == ' ');
        lemma_words_concat(ts[0] + sep, j);
        assert(words(ts[0]) + words(sep) =~= words(ts[0]));
    }
}

/// Whitespace alone holds no word.
pub proof fn lemma_words_all_ws(s: Seq<char>)
    requires
        forall|k: int| 0 <= k < s.len() ==> is_ws(#[trigger] s[k]),
    ensures
        words(s) == Seq::<Seq<char>>::empty(),
    decreases s.len(),
{
    if s.len() > 0 {
        let t = s.drop_last();
        assert forall|k: int| 0 <= k < t.len() implies is_ws(#[trigger] t[k]) by {
            assert(t[k] == s[k]);
        }
        lemma_words_all_ws(t);
        assert(is_ws(s[s.len() - 1]));
    } else {
        assert(words(s) =~= Seq::<Seq<char>>::empty());
    }
}

/// Texts joined with a whitespace separator hold the words of each text, in order.
pub proof fn lemma_words_join_ws(ts: Seq<Seq<char>>, sep: Seq<char>)
    requires
        sep.len() > 0,
        forall|k: int| 0 <= k < sep.len() ==> is_ws(#[trigger] sep[k]),
    ensures
        words(join(ts, sep)) == words_in(ts),
    decreases ts.len(),
{
    if ts.len() == 0 {
    } else if ts.len() == 1 {
        assert(ts.drop_first() =~= Seq::<Seq<char>>::empty());
        assert(words(ts[0]) + words_in(ts.drop_first()) =~= words(ts[0]));
    } else {
        let rest = ts.drop_first();
        lemma_words_join_ws(rest, sep);
        let j = join(rest, sep);
        assert(join(ts, sep) == ts[0] + sep + j);
        assert(is_ws(sep[0]));
        lemma_words_concat(ts[0], sep);
        lemma_words_all_ws(sep);
        assert((ts[0] + sep).last() == sep[sep.len() - 1]);
        assert(is_ws(sep[sep.len() - 1]));
        lemma_words_concat(ts[0] + sep, j);
        assert(words(ts[0]) + words(sep) =~= words(ts[0]));
    }
}

/// Texts put together hold the words of each text, in order, when every text
/// after the first starts with whitespace.
pub proof fn lemma_words_flatten(ps: Seq<Seq<char>>)
    requires
        forall|i: int| 0 < i < ps.len() ==> (#[trigger] ps[i]).len() > 0 && is_ws(ps[i][0]),
    ensures
        words(ps.flatten()) == words_in(ps),
    decreases ps.len(),
{
    if ps.len() > 0 {
        let rest = ps.drop_first();
        assert forall|i: int| 0 < i < rest.len() implies (#[trigger] rest[i]).len() > 0 && is_ws(rest[i][0]) by {
            assert(rest[i] == ps[i + 1]);
        }
        lemma_words_flatten(rest);
        let f = rest.flatten();
        if rest.len() > 0 {
            assert(rest[0] == ps[1]);
            assert(f == rest.first() + rest.drop_first().flatten());
            assert(f[0] == ps[1][0]);
        }
        lemma_words_concat(ps.first(), f);
    }
}

/// `needle` occurs somewhere in `hay`, as `str::contains` finds it.
pub open spec fn contains_seq(hay: Seq<char>, needle: Seq<char>) -> bool {
    exists|i: int| occurs_at(hay, needle, i)
}

/// An occurrence stays one when text is appended.
pub proof fn lemma_occurs_extend_right(s: Seq<char>, t: Seq<char>, p: Seq<char>, i: int)
    requires
        occurs_at(s, p, i),
    ensures
        occurs_at(s + t, p, i),
{
    assert((s + t).subrange(i, i + p.len()) =~= s.subrange(i, i + p.len()));
}

/// An occurrence moves along when text is prepended.
pub proof fn lemma_occurs_extend_left(s: Seq<char>, t: Seq<char>, p: Seq<char>, i: int)
    requires
        occurs_at(t, p, i),
    ensures
        occurs_at(s + t, p, i + s.len()),
{
    assert((s + t).subrange(i + s.len(), i + s.len() + p.len()) =~= t.subrange(i, i + p.len()));
}

/// Every text occurs in itself.
pub proof fn lemma_occurs_self(p: Seq<char>)
    ensures
        occurs_at(p, p, 0),
{
    assert(p.subrange(0, p.len() as int) =~= p);
}

/// Whether `needle` occurs in `hay`.
pub fn contains_chars(hay: &Vec<char>, needle: &Vec<char>) -> (b: bool)
    ensures
        b == contains_seq(hay@, needle@),
{
    proof {
        lemma_find_from(hay@, needle@, 0);
    }
    match find_pattern(hay, needle, 0) {
        Some(i) => {
            assert(occurs_at(hay@, needle@, i as int));
            true
        },
        None => false,
    }
}

/// The Unicode lowercase mapping of a text, as `str::to_lowercase` computes it.
pub uninterp spec fn lowercase(s: Seq<char>) -> Seq<char>;

/// Calls `str::to_lowercase`. Trusted, not proved: the contract claims only
/// that the result's characters are `lowercase` of the input's characters,
/// a function of the input alone (std's mapping does not depend on a locale).
#[verifier::external_body]
pub(crate) fn to_lowercase(s: &str) -> (r: String)
    ensures
        r@ == lowercase(s@),
{
    s.to_lowercase()
}

/// The characters of `lowercase(v)`.
pub fn lowercase_chars(v: &Vec<char>) -> (r: Vec<char>)
    ensures
        r@ == lowercase(v@),
{
    let s = string_of(v, 0, v.len());
    assert(v@.subrange(0, v@.len() as int) =~= v@);
    let l = to_lowercase(s.as_str());
    chars_of(l.as_str())
}

} // verus!
