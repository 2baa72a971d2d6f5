//! The clause segmenter: cuts a token stream into (label, body) pairs at
//! keyword boundaries, and keeps parenthesized and quoted spans whole.
use vstd::prelude::*;
use crate::groups::{
    detect_groups, lemma_group_stays_open, lemma_scan_concat, scan, single_group, text, Nest,
};
use crate::keywords::{
    keyword_table, lemma_group_opener_is_no_keyword, lookup_keyword, make_keyword_set, rule_of,
    same_text, table_view, KeywordPhrase,
};
use vstd::seq_lib::lemma_flatten_concat;
use crate::tokenizer::views;

verus! {

/// Why a token stream cannot be segmented.
#[derive(Clone, Copy, Debug, PartialEq, Eq, Structural)]
pub enum SegmentError {
    /// The stream ends inside a multi-word keyword phrase (`INNER` with no
    /// token after it, `LEFT outer` with no third token).
    UnfinishedPhrase,
}

/// The views of a sequence of strings.
pub open spec fn strings(v: Seq<String>) -> Seq<Seq<char>> {
    v.map_values(|s: String| s@)
}

/// The words of `ws` joined by single spaces.
pub open spec fn join_words(ws: Seq<Seq<char>>) -> Seq<char>
    decreases ws.len(),
{
    if ws.len() == 0 {
        seq![]
    } else if ws.len() == 1 {
        ws[0]
    } else {
        join_words(ws.drop_last()) + seq![' '] + ws.last()
    }
}

/// `out` with the pair (`label`, `body`) appended, each joined by spaces.
pub open spec fn flush(
    out: Seq<Seq<char>>,
    label: Seq<Seq<char>>,
    body: Seq<Seq<char>>,
) -> Seq<Seq<char>> {
    out + seq![join_words(label), join_words(body)]
}

/// The segmenter from token `i` on, with the current label and body, the
/// group stack and the pairs emitted so far; `None` when the stream ends
/// inside a multi-word keyword phrase.
///
/// A token is body text when a group is open or when it is no keyword; it is
/// then also fed to the group stack. A keyword, outside any group, emits the
/// current pair and starts a new label, which takes one, two or three tokens
/// as its phrase rule says.
pub open spec fn run(
    ts: Seq<Seq<char>>,
    i: int,
    label: Seq<Seq<char>>,
    body: Seq<Seq<char>>,
    stack: Seq<char>,
    out: Seq<Seq<char>>,
) -> Option<Seq<Seq<char>>>
    decreases ts.len() - i,
{
    if i >= ts.len() {
        Some(flush(out, label, body))
    } else if stack.len() > 0 || rule_of(ts[i]) is None {
        run(ts, i + 1, label, body.push(ts[i]), scan(stack, ts[i]), out)
    } else {
        let out2 = flush(out, label, body);
        match rule_of(ts[i])->0 {
            KeywordPhrase::Single => run(ts, i + 1, seq![ts[i]], seq![], stack, out2),
            KeywordPhrase::TwoWord => {
                if i + 1 < ts.len() {
                    run(ts, i + 2, seq![ts[i], ts[i + 1]], seq![], stack, out2)
                } else {
                    None
                }
            },
            KeywordPhrase::ThreeWordMaybe => {
                if i + 1 >= ts.len() {
                    run(ts, i + 1, seq![], seq![], stack, out2)
                } else if ts[i + 1] == "outer"@ {
                    if i + 2 < ts.len() {
                        run(ts, i + 3, seq![ts[i], ts[i + 1], ts[i + 2]], seq![], stack, out2)
                    } else {
                        None
                    }
                } else {
                    run(ts, i + 2, seq![ts[i], ts[i + 1]], seq![], stack, out2)
                }
            },
        }
    }
}

/// The interleaved (label, body) output of the token stream `ts`: its first
/// token seeds the first label whatever it is, and the last pair is always
/// emitted.
pub open spec fn segment(ts: Seq<Seq<char>>) -> Option<Seq<Seq<char>>> {
    if ts.len() == 0 {
        Some(seq![seq![], seq![]])
    } else {
        run(ts, 1, seq![ts[0]], seq![], seq![], seq![])
    }
}

proof fn lemma_flatten_first_len(x: Seq<Seq<char>>)
    requires
        x.len() > 0,
    ensures
        x.flatten().len() >= x[0].len(),
        x.flatten().subrange(0, x[0].len() as int) == x[0],
{
    assert(x.flatten() == x[0] + x.drop_first().flatten());
    assert(x.flatten().subrange(0, x[0].len() as int) =~= x[0]);
}

proof fn lemma_group_run(ts: Seq<Seq<char>>, l: Seq<char>, g: Seq<Seq<char>>, p: Nest, i: int)
    requires
        ts == seq![l] + g,
        single_group(p),
        g.len() > 0,
        forall|j: int| 0 <= j < g.len() ==> (#[trigger] g[j]).len() > 0,
        g.flatten() == text(p),
        1 <= i <= ts.len(),
    ensures
        run(
            ts,
            i,
            seq![l],
            g.subrange(0, i - 1),
            scan(seq![], g.subrange(0, i - 1).flatten()),
            seq![],
        ) == Some(flush(seq![], seq![l], g)),
    decreases ts.len() - i,
{
    let pre = g.subrange(0, i - 1);
    if i == ts.len() {
        assert(pre =~= g);
    } else {
        let t = ts[i];
        assert(t == g[i - 1]);
        let st = scan(seq![], pre.flatten());
        lemma_flatten_first_len(g);
        if i == 1 {
            assert(g[0][0] == text(p)[0]);
            lemma_group_opener_is_no_keyword(t);
        } else {
            let post = g.subrange(i - 1, g.len() as int);
            assert(g =~= pre + post);
            lemma_flatten_concat(pre, post);
            lemma_flatten_first_len(pre);
            lemma_flatten_first_len(post);
            assert(pre[0] == g[0]);
            assert(post[0] == g[i - 1]);
            let m = pre.flatten().len() as int;
            assert(pre.flatten() =~= text(p).subrange(0, m));
            lemma_group_stays_open(p, m);
        }
        assert(pre.push(t) =~= g.subrange(0, i));
        pre.lemma_flatten_push(t);
        lemma_scan_concat(seq![], pre.flatten(), t);
        lemma_group_run(ts, l, g, p, i + 1);
    }
}

/// Nothing inside a balanced group starts a new pair: a label followed by
/// tokens that together spell one well-nested parenthesized span or quoted
/// literal is a single (label, body) pair, whatever commas or keywords the
/// group holds.
pub proof fn lemma_group_is_one_body(l: Seq<char>, g: Seq<Seq<char>>, p: Nest)
    requires
        single_group(p),
        g.len() > 0,
        forall|j: int| 0 <= j < g.len() ==> (#[trigger] g[j]).len() > 0,
        g.flatten() == text(p),
    ensures
        segment(seq![l] + g) == Some(seq![l, join_words(g)]),
{
    let ts = seq![l] + g;
    assert(ts[0] == l);
    assert(g.subrange(0, 0) =~= Seq::<Seq<char>>::empty());
    assert(Seq::<Seq<char>>::empty().flatten() == Seq::<char>::empty());
    assert(scan(seq![], Seq::<char>::empty()) == Seq::<char>::empty());
    lemma_group_run(ts, l, g, p, 1);
    assert(join_words(seq![l]) == l);
    assert(flush(seq![], seq![l], g) =~= seq![l, join_words(g)]);
}

/// Joins the tokens of `ws` with single spaces.
pub fn join_tokens(ws: &Vec<&str>) -> (r: String)
    ensures
        r@ == join_words(views(ws@)),
{
    let ghost w = views(ws@);
    let mut r = String::new();
    let mut i: usize = 0;
    proof {
        assert(w.subrange(0, 0) =~= Seq::<Seq<char>>::empty());
    }
    while i < ws.len()
        invariant
            w == views(ws@),
            i <= ws@.len(),
            r@ == join_words(w.subrange(0, i as int)),
        decreases ws@.len() - i,
    {
        proof {
            assert(w.subrange(0, i + 1).drop_last() =~= w.subrange(0, i as int));
        }
        let ghost before = r@;
        if i > 0 {
            r.append(" ");
        }
        r.append(ws[i]);
        proof {
            reveal_strlit(" ");
            assert(w.subrange(0, i + 1).last() == ws@[i as int]@);
            if i == 0 {
                assert(r@ =~= ws@[0]@);
            } else {
                assert(r@ =~= before + seq![' '] + ws@[i as int]@);
            }
        }
        i = i + 1;
    }
    proof {
        assert(w.subrange(0, ws@.len() as int) =~= w);
    }
    r
}

/// Cuts the token stream into clause pairs, returned interleaved as
/// `[label, body, label, body, ...]`. Fails when the stream ends inside a
/// multi-word keyword phrase.
pub fn make_lines(tokens: Vec<&str>) -> (r: Result<Vec<String>, SegmentError>)
    ensures
        segment(views(tokens@)) is Some <==> r is Ok,
        r is Ok ==> strings(r->Ok_0@) == segment(views(tokens@))->0,
{
    let ghost ts = views(tokens@);
    let n = tokens.len();
    if n == 0 {
        let r = vec![String::new(), String::new()];
        assert(strings(r@) =~= seq![Seq::<char>::empty(), Seq::<char>::empty()]);
        return Ok(r);
    }
    let table = make_keyword_set();
    let mut label: Vec<&str> = vec![tokens[0]];
    let mut body: Vec<&str> = Vec::new();
    let mut stack: Vec<char> = Vec::new();
    let mut out: Vec<String> = Vec::new();
    let mut i: usize = 1;
    proof {
        assert(views(label@) =~= seq![ts[0]]);
        assert(views(body@) =~= Seq::<Seq<char>>::empty());
        assert(strings(out@) =~= Seq::<Seq<char>>::empty());
        assert(stack@ =~= Seq::<char>::empty());
    }
    while i < n
        invariant
            n == tokens@.len(),
            ts == views(tokens@),
            table_view(table@) == keyword_table(),
            1 <= i <= n,
            segment(ts) == run(ts, i as int, views(label@), views(body@), stack@, strings(out@)),
        decreases n - i,
    {
        let t = tokens[i];
        let rule = if stack.len() > 0 {
            None
        } else {
            lookup_keyword(&table, t)
        };
        match rule {
            None => {
                proof {
                    assert(views(body@.push(t)) =~= views(body@).push(ts[i as int]));
                }
                body.push(t);
                detect_groups(&mut stack, t);
                i = i + 1;
            },
            Some(phrase) => {
                let ghost out2 = flush(strings(out@), views(label@), views(body@));
                let l = join_tokens(&label);
                let b = join_tokens(&body);
                out.push(l);
                out.push(b);
                assert(strings(out@) =~= out2);
                match phrase {
                    KeywordPhrase::Single => {
                        label = vec![t];
                        assert(views(label@) =~= seq![ts[i as int]]);
                        i = i + 1;
                    },
                    KeywordPhrase::TwoWord => {
                        if i + 1 >= n {
                            return Err(SegmentError::UnfinishedPhrase);
                        }
                        label = vec![t, tokens[i + 1]];
                        assert(views(label@) =~= seq![ts[i as int], ts[i + 1]]);
                        i = i + 2;
                    },
                    KeywordPhrase::ThreeWordMaybe => {
                        if i + 1 >= n {
                            label = Vec::new();
                            assert(views(label@) =~= Seq::<Seq<char>>::empty());
                            i = i + 1;
                        } else {
                            let t2 = tokens[i + 1];
                            if same_text(t2, "outer") {
                                if i + 2 >= n {
                                    return Err(SegmentError::UnfinishedPhrase);
                                }
                                label = vec![t, t2, tokens[i + 2]];
                                assert(views(label@) =~= seq![
                                    ts[i as int],
                                    ts[i + 1],
                                    ts[i + 2],
                                ]);
                                i = i + 3;
                            } else {
                                label = vec![t, t2];
                                assert(views(label@) =~= seq![ts[i as int], ts[i + 1]]);
                                i = i + 2;
                            }
                        }
                    },
                }
                body = Vec::new();
                assert(views(body@) =~= Seq::<Seq<char>>::empty());
            },
        }
    }
    let l = join_tokens(&label);
    let b = join_tokens(&body);
    let ghost before = strings(out@);
    out.push(l);
    out.push(b);
    assert(strings(out@) =~= flush(before, views(label@), views(body@)));
    Ok(out)
}

} // verus!
