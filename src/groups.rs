//! The group-balance tracker: a stack of open `(` and `'` markers, updated one
//! character at a time.
use vstd::prelude::*;

verus! {

/// `(`, `)` and `'` are the characters that open or close a group.
pub open spec fn group_char(c: char) -> bool {
    c == '(' || c == ')' || c == '\''
}

/// The effect of one character on the group stack.
pub open spec fn step(stack: Seq<char>, c: char) -> Seq<char> {
    if !group_char(c) {
        stack
    } else if stack.len() == 0 {
        // an unmatched `)` is kept as a marker of its own
        stack.push(c)
    } else if stack.last() == '\'' {
        // inside a quoted literal only the closing quote counts
        if c == '\'' {
            stack.drop_last()
        } else {
            stack
        }
    } else if c == '(' {
        stack.push(c)
    } else if c == ')' {
        if stack.last() == '(' {
            stack.drop_last()
        } else {
            stack.push(c)
        }
    } else {
        // a quote directly inside parentheses is inert
        stack
    }
}

/// The group stack after scanning `cs` from left to right, starting at `stack`.
pub open spec fn scan(stack: Seq<char>, cs: Seq<char>) -> Seq<char>
    decreases cs.len(),
{
    if cs.len() == 0 {
        stack
    } else {
        scan(step(stack, cs[0]), cs.drop_first())
    }
}

/// A well-nested text, as a grammar: plain characters, parenthesized spans and
/// quoted literals, each followed by the rest of the text.
pub enum Nest {
    /// The empty text.
    End,
    /// One character, then the rest.
    Plain(char, Box<Nest>),
    /// A parenthesized span, then the rest.
    Paren(Box<Nest>, Box<Nest>),
    /// A quoted literal, then the rest.
    Quote(Seq<char>, Box<Nest>),
}

/// The characters that `n` stands for.
pub open spec fn text(n: Nest) -> Seq<char>
    decreases n,
{
    match n {
        Nest::End => seq![],
        Nest::Plain(c, rest) => seq![c] + text(*rest),
        Nest::Paren(inner, rest) => seq!['('] + text(*inner) + seq![')'] + text(*rest),
        Nest::Quote(q, rest) => seq!['\''] + q + seq!['\''] + text(*rest),
    }
}

/// `n` is well nested: plain characters are no group characters, and a quoted
/// literal holds no quote. Inside parentheses, where a quote does not open a
/// literal, a quoted literal holds no parenthesis either.
pub open spec fn well_nested(n: Nest, in_paren: bool) -> bool
    decreases n,
{
    match n {
        Nest::End => true,
        Nest::Plain(c, rest) => !group_char(c) && well_nested(*rest, in_paren),
        Nest::Paren(inner, rest) => well_nested(*inner, true) && well_nested(*rest, in_paren),
        Nest::Quote(q, rest) => (forall|k: int|
            0 <= k < q.len() ==> #[trigger] q[k] != '\'' && (in_paren ==> q[k] != '(' && q[k]
                != ')')) && well_nested(*rest, in_paren),
    }
}

/// `n` is one parenthesized span or one quoted literal, well nested.
pub open spec fn single_group(n: Nest) -> bool {
    &&& well_nested(n, false)
    &&& match n {
        Nest::Paren(_, rest) => *rest == Nest::End,
        Nest::Quote(_, rest) => *rest == Nest::End,
        _ => false,
    }
}

/// Scanning `a` then `b` is scanning `a + b`.
pub proof fn lemma_scan_concat(stack: Seq<char>, a: Seq<char>, b: Seq<char>)
    ensures
        scan(stack, a + b) == scan(scan(stack, a), b),
    decreases a.len(),
{
    if a.len() == 0 {
        assert(a + b =~= b);
    } else {
        assert((a + b).drop_first() =~= a.drop_first() + b);
        lemma_scan_concat(step(stack, a[0]), a.drop_first(), b);
    }
}

proof fn lemma_scan_inert(stack: Seq<char>, cs: Seq<char>)
    requires
        forall|k: int| 0 <= k < cs.len() ==> step(stack, #[trigger] cs[k]) == stack,
    ensures
        scan(stack, cs) == stack,
    decreases cs.len(),
{
    if cs.len() > 0 {
        assert forall|k: int| 0 <= k < cs.drop_first().len() implies step(
            stack,
            #[trigger] cs.drop_first()[k],
        ) == stack by {
            assert(cs.drop_first()[k] == cs[k + 1]);
        }
        lemma_scan_inert(stack, cs.drop_first());
    }
}

proof fn lemma_scan_one(stack: Seq<char>, c: char)
    ensures
        scan(stack, seq![c]) == step(stack, c),
{
    assert(seq![c].drop_first() =~= Seq::<char>::empty());
    assert(scan(step(stack, c), Seq::<char>::empty()) == step(stack, c));
}

/// A well-nested text leaves the group stack as it found it: empty at the top
/// level, or with a `(` on top inside parentheses.
proof fn lemma_nested_returns(n: Nest, in_paren: bool, stack: Seq<char>)
    requires
        well_nested(n, in_paren),
        in_paren ==> stack.len() > 0 && stack.last() == '(',
        !in_paren ==> stack.len() == 0,
    ensures
        scan(stack, text(n)) == stack,
    decreases n,
{
    match n {
        Nest::End => {},
        Nest::Plain(c, rest) => {
            lemma_scan_concat(stack, seq![c], text(*rest));
            lemma_scan_one(stack, c);
            lemma_nested_returns(*rest, in_paren, stack);
        },
        Nest::Paren(inner, rest) => {
            let open = stack.push('(');
            lemma_scan_concat(stack, seq!['('] + text(*inner) + seq![')'], text(*rest));
            lemma_scan_concat(stack, seq!['('] + text(*inner), seq![')']);
            lemma_scan_concat(stack, seq!['('], text(*inner));
            lemma_scan_one(stack, '(');
            lemma_nested_returns(*inner, true, open);
            lemma_scan_one(open, ')');
            assert(open.drop_last() =~= stack);
            lemma_nested_returns(*rest, in_paren, stack);
        },
        Nest::Quote(q, rest) => {
            let lit = seq!['\''] + q + seq!['\''];
            lemma_scan_concat(stack, lit, text(*rest));
            lemma_scan_concat(stack, seq!['\''] + q, seq!['\'']);
            lemma_scan_concat(stack, seq!['\''], q);
            lemma_scan_one(stack, '\'');
            let inside = step(stack, '\'');
            lemma_scan_inert(inside, q);
            lemma_scan_one(inside, '\'');
            if !in_paren {
                assert(inside.drop_last() =~= stack);
            }
            lemma_nested_returns(*rest, in_paren, stack);
        },
    }
}

/// Well-nested text keeps the group stack balanced: scanning it from an empty
/// stack ends with an empty stack.
pub proof fn lemma_well_nested_balanced(n: Nest)
    requires
        well_nested(n, false),
    ensures
        scan(seq![], text(n)) == Seq::<char>::empty(),
{
    lemma_nested_returns(n, false, seq![]);
}

/// Inside parentheses, no prefix of a well-nested text pops the group stack
/// below where it started.
proof fn lemma_nested_prefix_keeps(n: Nest, stack: Seq<char>, k: int)
    requires
        well_nested(n, true),
        stack.len() > 0,
        stack.last() == '(',
        0 <= k <= text(n).len(),
    ensures
        scan(stack, text(n).subrange(0, k)).len() >= stack.len(),
    decreases n,
{
    match n {
        Nest::End => {
            assert(text(n).subrange(0, k) =~= Seq::<char>::empty());
        },
        Nest::Plain(c, rest) => {
            let t = text(*rest);
            if k == 0 {
                assert(text(n).subrange(0, k) =~= Seq::<char>::empty());
            } else {
                assert(text(n).subrange(0, k) =~= seq![c] + t.subrange(0, k - 1));
                lemma_scan_concat(stack, seq![c], t.subrange(0, k - 1));
                lemma_scan_one(stack, c);
                lemma_nested_prefix_keeps(*rest, stack, k - 1);
            }
        },
        Nest::Paren(inner, rest) => {
            let ti = text(*inner);
            let tr = text(*rest);
            let head = seq!['('] + ti + seq![')'];
            let open = stack.push('(');
            lemma_scan_one(stack, '(');
            if k == 0 {
                assert(text(n).subrange(0, k) =~= Seq::<char>::empty());
            } else if k <= ti.len() + 1 {
                assert(text(n).subrange(0, k) =~= seq!['('] + ti.subrange(0, k - 1));
                lemma_scan_concat(stack, seq!['('], ti.subrange(0, k - 1));
                lemma_nested_prefix_keeps(*inner, open, k - 1);
            } else {
                let j = k - ti.len() - 2;
                assert(text(n).subrange(0, k) =~= head + tr.subrange(0, j));
                lemma_scan_concat(stack, head, tr.subrange(0, j));
                lemma_scan_concat(stack, seq!['('] + ti, seq![')']);
                lemma_scan_concat(stack, seq!['('], ti);
                lemma_nested_returns(*inner, true, open);
                lemma_scan_one(open, ')');
                assert(open.drop_last() =~= stack);
                lemma_nested_prefix_keeps(*rest, stack, j);
            }
        },
        Nest::Quote(q, rest) => {
            let lit = seq!['\''] + q + seq!['\''];
            let tr = text(*rest);
            if k <= lit.len() {
                assert(text(n).subrange(0, k) =~= lit.subrange(0, k));
                assert forall|m: int| 0 <= m < lit.subrange(0, k).len() implies step(
                    stack,
                    #[trigger] lit.subrange(0, k)[m],
                ) == stack by {
                    if 0 < m < lit.len() - 1 {
                        assert(lit[m] == q[m - 1]);
                    }
                }
                lemma_scan_inert(stack, lit.subrange(0, k));
            } else {
                let j = k - lit.len();
                assert(text(n).subrange(0, k) =~= lit + tr.subrange(0, j));
                lemma_scan_concat(stack, lit, tr.subrange(0, j));
                assert forall|m: int| 0 <= m < lit.len() implies step(
                    stack,
                    #[trigger] lit[m],
                ) == stack by {
                    if 0 < m < lit.len() - 1 {
                        assert(lit[m] == q[m - 1]);
                    }
                }
                lemma_scan_inert(stack, lit);
                lemma_nested_prefix_keeps(*rest, stack, j);
            }
        },
    }
}

/// While a single group is being read, the group stack is never empty: every
/// non-empty proper prefix of its text leaves an open group on the stack.
pub proof fn lemma_group_stays_open(n: Nest, k: int)
    requires
        single_group(n),
        0 < k < text(n).len(),
    ensures
        scan(seq![], text(n).subrange(0, k)).len() > 0,
{
    let empty = Seq::<char>::empty();
    match n {
        Nest::Paren(inner, rest) => {
            let ti = text(*inner);
            assert(text(*rest) =~= empty);
            assert(text(n).subrange(0, k) =~= seq!['('] + ti.subrange(0, k - 1));
            lemma_scan_concat(empty, seq!['('], ti.subrange(0, k - 1));
            lemma_scan_one(empty, '(');
            lemma_nested_prefix_keeps(*inner, seq!['('], k - 1);
        },
        Nest::Quote(q, rest) => {
            assert(text(*rest) =~= empty);
            assert(text(n).subrange(0, k) =~= seq!['\''] + q.subrange(0, k - 1));
            lemma_scan_concat(empty, seq!['\''], q.subrange(0, k - 1));
            lemma_scan_one(empty, '\'');
            lemma_scan_inert(seq!['\''], q.subrange(0, k - 1));
        },
        _ => {},
    }
}

/// Whether `c` is one of the characters that open or close a group.
pub fn is_group_symbol(c: &char) -> (r: bool)
    ensures
        r == group_char(*c),
{
    *c == '(' || *c == ')' || *c == '\''
}

/// Feeds the characters of `s` to the group stack, in order.
pub fn detect_groups(group_chars: &mut Vec<char>, s: &str)
    ensures
        final(group_chars)@ == scan(old(group_chars)@, s@),
{
    let n = s.unicode_len();
    let mut i: usize = 0;
    assert(s@.subrange(0, n as int) =~= s@);
    while i < n
        invariant
            n == s@.len(),
            i <= n,
            scan(group_chars@, s@.subrange(i as int, n as int)) == scan(old(group_chars)@, s@),
        decreases n - i,
    {
        let c = s.get_char(i);
        proof {
            assert(s@.subrange(i as int, n as int).drop_first() =~= s@.subrange(
                i + 1,
                n as int,
            ));
        }
        if is_group_symbol(&c) {
            let len = group_chars.len();
            if len == 0 {
                group_chars.push(c);
            } else if group_chars[len - 1] == '\'' {
                if c == '\'' {
                    group_chars.pop();
                }
            } else if c == '(' {
                group_chars.push(c);
            } else if c == ')' {
                if group_chars[len - 1] == '(' {
                    group_chars.pop();
                } else {
                    group_chars.push(c);
                }
            }
        }
        i = i + 1;
    }
    assert(s@.subrange(n as int, n as int) =~= Seq::<char>::empty());
}

} // verus!
