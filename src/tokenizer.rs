//! The tokenizer: whitespace-delimited words, with every comma split off into
//! a token of its own.
use vstd::prelude::*;
use vstd::seq_lib::lemma_flatten_concat;

verus! {

/// The character views of a sequence of string slices.
pub open spec fn views(ts: Seq<&str>) -> Seq<Seq<char>> {
    ts.map_values(|t: &str| t@)
}

/// The characters that separate words: ASCII space, tab, newline, form feed
/// and carriage return.
pub open spec fn ascii_space(c: char) -> bool {
    c == ' ' || c == '\t' || c == '\n' || c == '\x0C' || c == '\r'
}

/// The index of the first comma of `w`, or `w.len()` when it has none.
pub open spec fn comma_at(w: Seq<char>) -> int
    decreases w.len(),
{
    if w.len() == 0 || w[0] == ',' {
        0
    } else {
        1 + comma_at(w.drop_first())
    }
}

/// The index of the first whitespace character of `s`, or `s.len()`.
pub open spec fn space_at(s: Seq<char>) -> int
    decreases s.len(),
{
    if s.len() == 0 || ascii_space(s[0]) {
        0
    } else {
        1 + space_at(s.drop_first())
    }
}

/// `s` as a token, or no token at all when it is empty.
pub open spec fn piece(s: Seq<char>) -> Seq<Seq<char>> {
    if s.len() == 0 {
        seq![]
    } else {
        seq![s]
    }
}

/// The tokens of one word: each comma alone, and each non-empty run of other
/// characters between them.
pub open spec fn comma_split(w: Seq<char>) -> Seq<Seq<char>>
    decreases w.len(),
{
    let k = comma_at(w);
    if 0 <= k < w.len() {
        piece(w.subrange(0, k)) + seq![seq![',']] + comma_split(w.subrange(k + 1, w.len() as int))
    } else {
        piece(w)
    }
}

/// The tokens of a whole query: the tokens of each of its words, in order.
pub open spec fn query_tokens(s: Seq<char>) -> Seq<Seq<char>>
    decreases s.len(),
{
    let k = space_at(s);
    if 0 <= k < s.len() {
        comma_split(s.subrange(0, k)) + query_tokens(s.subrange(k + 1, s.len() as int))
    } else {
        comma_split(s)
    }
}

/// The number of commas in `s`.
pub open spec fn comma_count(s: Seq<char>) -> nat
    decreases s.len(),
{
    if s.len() == 0 {
        0
    } else {
        (if s[0] == ',' {
            1nat
        } else {
            0nat
        }) + comma_count(s.drop_first())
    }
}

/// The number of tokens in `ts` that are a single comma.
pub open spec fn comma_token_count(ts: Seq<Seq<char>>) -> nat
    decreases ts.len(),
{
    if ts.len() == 0 {
        0
    } else {
        (if ts[0] == seq![','] {
            1nat
        } else {
            0nat
        }) + comma_token_count(ts.drop_first())
    }
}

proof fn lemma_comma_at(w: Seq<char>, k: int)
    requires
        0 <= k <= w.len(),
        forall|j: int| 0 <= j < k ==> w[j] != ',',
        k < w.len() ==> w[k] == ',',
    ensures
        comma_at(w) == k,
    decreases k,
{
    if k > 0 {
        lemma_comma_at(w.drop_first(), k - 1);
    }
}

proof fn lemma_space_at(s: Seq<char>, k: int)
    requires
        0 <= k <= s.len(),
        forall|j: int| 0 <= j < k ==> !ascii_space(s[j]),
        k < s.len() ==> ascii_space(s[k]),
    ensures
        space_at(s) == k,
    decreases k,
{
    if k > 0 {
        lemma_space_at(s.drop_first(), k - 1);
    }
}

proof fn lemma_views_push<'a>(ts: Seq<&'a str>, t: &'a str)
    ensures
        views(ts.push(t)) == views(ts).push(t@),
{
    assert(views(ts.push(t)) =~= views(ts).push(t@));
}

proof fn lemma_views_add<'a>(a: Seq<&'a str>, b: Seq<&'a str>)
    ensures
        views(a + b) == views(a) + views(b),
{
    assert(views(a + b) =~= views(a) + views(b));
}

proof fn lemma_comma_at_bounds(w: Seq<char>)
    ensures
        0 <= comma_at(w) <= w.len(),
        forall|j: int| 0 <= j < comma_at(w) ==> w[j] != ',',
        comma_at(w) < w.len() ==> w[comma_at(w)] == ',',
    decreases w.len(),
{
    if w.len() > 0 && w[0] != ',' {
        lemma_comma_at_bounds(w.drop_first());
        assert forall|j: int| 0 <= j < comma_at(w) implies w[j] != ',' by {
            if j > 0 {
                assert(w[j] == w.drop_first()[j - 1]);
            }
        }
    }
}

proof fn lemma_comma_count_add(a: Seq<char>, b: Seq<char>)
    ensures
        comma_count(a + b) == comma_count(a) + comma_count(b),
    decreases a.len(),
{
    if a.len() == 0 {
        assert(a + b =~= b);
    } else {
        assert((a + b).drop_first() =~= a.drop_first() + b);
        lemma_comma_count_add(a.drop_first(), b);
    }
}

proof fn lemma_comma_count_none(a: Seq<char>)
    requires
        forall|j: int| 0 <= j < a.len() ==> a[j] != ',',
    ensures
        comma_count(a) == 0,
    decreases a.len(),
{
    if a.len() > 0 {
        lemma_comma_count_none(a.drop_first());
    }
}

proof fn lemma_comma_token_count_add(a: Seq<Seq<char>>, b: Seq<Seq<char>>)
    ensures
        comma_token_count(a + b) == comma_token_count(a) + comma_token_count(b),
    decreases a.len(),
{
    if a.len() == 0 {
        assert(a + b =~= b);
    } else {
        assert((a + b).drop_first() =~= a.drop_first() + b);
        lemma_comma_token_count_add(a.drop_first(), b);
    }
}

/// Splitting a word `w` that holds `k` commas gives exactly `k` comma tokens
/// and at most `k + 1` other tokens, each non-empty and free of commas; the
/// tokens joined without separators give `w` back.
pub proof fn lemma_split_commas_parts(w: Seq<char>)
    ensures
        comma_token_count(comma_split(w)) == comma_count(w),
        comma_split(w).len() - comma_token_count(comma_split(w)) <= comma_count(w) + 1,
        forall|j: int|
            0 <= j < comma_split(w).len() ==> #[trigger] comma_split(w)[j] == seq![',']
                || (comma_split(w)[j].len() > 0 && forall|i: int|
                0 <= i < comma_split(w)[j].len() ==> comma_split(w)[j][i] != ','),
        comma_split(w).flatten() == w,
    decreases w.len(),
{
    lemma_comma_at_bounds(w);
    let k = comma_at(w);
    if k < w.len() {
        let a = w.subrange(0, k);
        let rest = w.subrange(k + 1, w.len() as int);
        let mid: Seq<Seq<char>> = seq![seq![',']];
        lemma_split_commas_parts(rest);
        let t = comma_split(w);
        assert(t == piece(a) + mid + comma_split(rest));
        assert(w =~= a + seq![','] + rest);
        lemma_comma_count_none(a);
        lemma_comma_count_add(a + seq![','], rest);
        lemma_comma_count_add(a, seq![',']);
        assert(comma_count(seq![',']) == 1) by {
            assert(seq![','].drop_first() =~= Seq::<char>::empty());
            assert(comma_count(Seq::<char>::empty()) == 0);
        }
        lemma_comma_token_count_add(piece(a) + mid, comma_split(rest));
        lemma_comma_token_count_add(piece(a), mid);
        assert(comma_token_count(mid) == 1) by {
            assert(mid.drop_first() =~= Seq::<Seq<char>>::empty());
            assert(comma_token_count(Seq::<Seq<char>>::empty()) == 0);
        }
        if a.len() > 0 {
            assert(a != seq![',']) by {
                if a == seq![','] {
                    assert(a[0] == ',');
                }
            }
            assert(comma_token_count(piece(a)) == 0) by {
                assert(piece(a).drop_first() =~= Seq::<Seq<char>>::empty());
                assert(comma_token_count(Seq::<Seq<char>>::empty()) == 0);
            }
            piece(a).lemma_flatten_singleton();
        } else {
            assert(piece(a).flatten() =~= a);
        }
        mid.lemma_flatten_singleton();
        lemma_flatten_concat(piece(a) + mid, comma_split(rest));
        lemma_flatten_concat(piece(a), mid);
        assert(t.flatten() =~= w);
        assert forall|j: int|
            0 <= j < t.len() implies #[trigger] t[j] == seq![','] || (t[j].len() > 0 && forall|
                i: int,
            |
                0 <= i < t[j].len() ==> t[j][i] != ',') by {
            let p = piece(a).len();
            if j >= p + 1 {
                assert(t[j] == comma_split(rest)[j - p - 1]);
            }
        }
    } else {
        lemma_comma_count_none(w);
        if w.len() > 0 {
            assert(w != seq![',']) by {
                if w == seq![','] {
                    assert(w[0] == ',');
                }
            }
            assert(comma_token_count(piece(w)) == 0) by {
                assert(piece(w).drop_first() =~= Seq::<Seq<char>>::empty());
                assert(comma_token_count(Seq::<Seq<char>>::empty()) == 0);
            }
            piece(w).lemma_flatten_singleton();
        } else {
            assert(piece(w).flatten() =~= w);
        }
    }
}

fn is_ascii_space(c: char) -> (r: bool)
    ensures
        r == ascii_space(c),
{
    c == ' ' || c == '\t' || c == '\n' || c == '\x0C' || c == '\r'
}

/// Splits one word into its tokens: each comma becomes a token of its own, and
/// so does each non-empty run of other characters.
pub fn split_commas<'a>(s: &'a str) -> (r: Vec<&'a str>)
    ensures
        views(r@) == comma_split(s@),
{
    let n = s.unicode_len();
    let ghost w = s@;
    let mut result: Vec<&'a str> = Vec::new();
    let mut last: usize = 0;
    let mut i: usize = 0;
    assert(w.subrange(0, n as int) =~= w);
    while i < n
        invariant
            n == w.len(),
            w == s@,
            last <= i <= n,
            forall|j: int| last <= j < i ==> w[j] != ',',
            comma_split(w) == views(result@) + comma_split(w.subrange(last as int, n as int)),
        decreases n - i,
    {
        let c = s.get_char(i);
        if c == ',' {
            let ghost rest = w.subrange(last as int, n as int);
            proof {
                lemma_comma_at(rest, i - last);
                assert(rest.subrange(0, i - last) =~= w.subrange(last as int, i as int));
                assert(rest.subrange(i - last + 1, rest.len() as int) =~= w.subrange(
                    i + 1,
                    n as int,
                ));
            }
            if last != i {
                let seg = s.substring_char(last, i);
                proof {
                    lemma_views_push(result@, seg);
                }
                result.push(seg);
            }
            let comma = s.substring_char(i, i + 1);
            proof {
                lemma_views_push(result@, comma);
                assert(comma@ =~= seq![',']);
            }
            result.push(comma);
            last = i + 1;
            proof {
                assert(comma_split(w) =~= views(result@) + comma_split(
                    w.subrange(last as int, n as int),
                ));
            }
        }
        i = i + 1;
    }
    let ghost rest = w.subrange(last as int, n as int);
    proof {
        lemma_comma_at(rest, rest.len() as int);
    }
    if last < n {
        let seg = s.substring_char(last, n);
        proof {
            lemma_views_push(result@, seg);
        }
        result.push(seg);
    }
    proof {
        assert(views(result@) =~= comma_split(w));
    }
    result
}

/// Splits a query into tokens: its whitespace-delimited words, each split by
/// `split_commas`.
pub fn split_query<'a>(query: &'a str) -> (r: Vec<&'a str>)
    ensures
        views(r@) == query_tokens(query@),
{
    let n = query.unicode_len();
    let ghost q = query@;
    let mut result: Vec<&'a str> = Vec::new();
    let mut start: usize = 0;
    let mut i: usize = 0;
    assert(q.subrange(0, n as int) =~= q);
    while i < n
        invariant
            n == q.len(),
            q == query@,
            start <= i <= n,
            forall|j: int| start <= j < i ==> !ascii_space(q[j]),
            query_tokens(q) == views(result@) + query_tokens(q.subrange(start as int, n as int)),
        decreases n - i,
    {
        let c = query.get_char(i);
        if is_ascii_space(c) {
            let ghost rest = q.subrange(start as int, n as int);
            proof {
                lemma_space_at(rest, i - start);
                assert(rest.subrange(0, i - start) =~= q.subrange(start as int, i as int));
                assert(rest.subrange(i - start + 1, rest.len() as int) =~= q.subrange(
                    i + 1,
                    n as int,
                ));
            }
            if start != i {
                let word = query.substring_char(start, i);
                let mut pieces = split_commas(word);
                proof {
                    lemma_views_add(result@, pieces@);
                }
                result.append(&mut pieces);
            } else {
                assert(q.subrange(start as int, i as int) =~= Seq::<char>::empty());
            }
            start = i + 1;
            proof {
                assert(query_tokens(q) =~= views(result@) + query_tokens(
                    q.subrange(start as int, n as int),
                ));
            }
        }
        i = i + 1;
    }
    let ghost rest = q.subrange(start as int, n as int);
    proof {
        lemma_space_at(rest, rest.len() as int);
    }
    if start < n {
        let word = query.substring_char(start, n);
        let mut pieces = split_commas(word);
        proof {
            lemma_views_add(result@, pieces@);
        }
        result.append(&mut pieces);
    } else {
        assert(rest =~= Seq::<char>::empty());
    }
    proof {
        assert(views(result@) =~= query_tokens(q));
    }
    result
}

} // verus!
