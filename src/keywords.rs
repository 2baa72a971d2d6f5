//! The keyword table: each clause keyword with the rule that says how many
//! tokens its label takes.
use vstd::prelude::*;

verus! {

/// How a keyword forms its clause label.
#[derive(Clone, Copy, Debug, PartialEq, Eq, Structural)]
pub enum KeywordPhrase {
    /// The keyword alone.
    Single,
    /// The keyword and the token after it (`INNER JOIN`, `GROUP BY`).
    TwoWord,
    /// The keyword and the token after it, or three tokens when that token is
    /// `outer` (`LEFT OUTER JOIN`).
    ThreeWordMaybe,
}

/// `c` is `k`, or the ASCII upper-case letter of the lower-case letter `k`.
pub open spec fn same_letter(c: char, k: char) -> bool {
    c == k || ('A' <= c <= 'Z' && (c as u32) + 32 == (k as u32))
}

/// `t` spells the lower-case keyword `k`, ignoring ASCII case.
pub open spec fn spells(t: Seq<char>, k: Seq<char>) -> bool {
    t.len() == k.len() && forall|i: int| 0 <= i < t.len() ==> same_letter(#[trigger] t[i], k[i])
}

/// The keyword table, in lower case.
pub open spec fn keyword_table() -> Seq<(Seq<char>, KeywordPhrase)> {
    seq![
        ("select"@, KeywordPhrase::Single),
        ("from"@, KeywordPhrase::Single),
        ("where"@, KeywordPhrase::Single),
        ("left"@, KeywordPhrase::ThreeWordMaybe),
        ("right"@, KeywordPhrase::ThreeWordMaybe),
        ("inner"@, KeywordPhrase::TwoWord),
        ("outer"@, KeywordPhrase::TwoWord),
        ("join"@, KeywordPhrase::Single),
        ("on"@, KeywordPhrase::Single),
        ("group"@, KeywordPhrase::TwoWord),
        ("cluster"@, KeywordPhrase::TwoWord),
        ("having"@, KeywordPhrase::Single),
        ("top"@, KeywordPhrase::Single),
        ("limit"@, KeywordPhrase::Single),
        (","@, KeywordPhrase::Single),
    ]
}

/// The views of the entries of an executable keyword table.
pub open spec fn table_view(tab: Seq<(&str, KeywordPhrase)>) -> Seq<(Seq<char>, KeywordPhrase)> {
    tab.map_values(|e: (&str, KeywordPhrase)| (e.0@, e.1))
}

/// The rule of the first entry of `tab` that `t` spells, if any.
pub open spec fn lookup(tab: Seq<(Seq<char>, KeywordPhrase)>, t: Seq<char>) -> Option<
    KeywordPhrase,
>
    decreases tab.len(),
{
    if tab.len() == 0 {
        None
    } else if spells(t, tab[0].0) {
        Some(tab[0].1)
    } else {
        lookup(tab.drop_first(), t)
    }
}

/// The phrase rule of token `t`, or `None` when `t` is no keyword.
pub open spec fn rule_of(t: Seq<char>) -> Option<KeywordPhrase> {
    lookup(keyword_table(), t)
}

/// No keyword starts with `(` or a quote: a token that opens a group is never
/// a keyword.
pub proof fn lemma_group_opener_is_no_keyword(t: Seq<char>)
    requires
        t.len() > 0,
        t[0] == '(' || t[0] == '\'',
    ensures
        rule_of(t) is None,
{
    reveal_strlit("select");
    reveal_strlit("from");
    reveal_strlit("where");
    reveal_strlit("left");
    reveal_strlit("right");
    reveal_strlit("inner");
    reveal_strlit("outer");
    reveal_strlit("join");
    reveal_strlit("on");
    reveal_strlit("group");
    reveal_strlit("cluster");
    reveal_strlit("having");
    reveal_strlit("top");
    reveal_strlit("limit");
    reveal_strlit(",");
    let tab = keyword_table();
    assert forall|j: int| 0 <= j < tab.len() implies !spells(t, #[trigger] tab[j].0) by {
        assert(tab[j].0.len() > 0);
        assert(!same_letter(t[0], tab[j].0[0]));
    }
    lemma_lookup_none(tab, t);
}

proof fn lemma_lookup_none(tab: Seq<(Seq<char>, KeywordPhrase)>, t: Seq<char>)
    requires
        forall|j: int| 0 <= j < tab.len() ==> !spells(t, #[trigger] tab[j].0),
    ensures
        lookup(tab, t) is None,
    decreases tab.len(),
{
    if tab.len() > 0 {
        assert(!spells(t, tab[0].0));
        assert forall|j: int| 0 <= j < tab.drop_first().len() implies !spells(
            t,
            #[trigger] tab.drop_first()[j].0,
        ) by {
            assert(tab.drop_first()[j] == tab[j + 1]);
        }
        lemma_lookup_none(tab.drop_first(), t);
    }
}

/// The keyword table: every clause keyword, in lower case, with its phrase rule.
pub fn make_keyword_set() -> (r: Vec<(&'static str, KeywordPhrase)>)
    ensures
        table_view(r@) == keyword_table(),
{
    let r = vec![
        ("select", KeywordPhrase::Single),
        ("from", KeywordPhrase::Single),
        ("where", KeywordPhrase::Single),
        ("left", KeywordPhrase::ThreeWordMaybe),
        ("right", KeywordPhrase::ThreeWordMaybe),
        ("inner", KeywordPhrase::TwoWord),
        ("outer", KeywordPhrase::TwoWord),
        ("join", KeywordPhrase::Single),
        ("on", KeywordPhrase::Single),
        ("group", KeywordPhrase::TwoWord),
        ("cluster", KeywordPhrase::TwoWord),
        ("having", KeywordPhrase::Single),
        ("top", KeywordPhrase::Single),
        ("limit", KeywordPhrase::Single),
        (",", KeywordPhrase::Single),
    ];
    assert(table_view(r@) =~= keyword_table());
    r
}

/// Whether `token` spells the lower-case keyword `key`, ignoring ASCII case.
pub fn spells_keyword(token: &str, key: &str) -> (r: bool)
    ensures
        r == spells(token@, key@),
{
    let n = token.unicode_len();
    if n != key.unicode_len() {
        return false;
    }
    let mut i: usize = 0;
    while i < n
        invariant
            n == token@.len(),
            n == key@.len(),
            i <= n,
            forall|j: int| 0 <= j < i ==> same_letter(#[trigger] token@[j], key@[j]),
        decreases n - i,
    {
        let c = token.get_char(i);
        let k = key.get_char(i);
        let folded = c == k || ('A' <= c && c <= 'Z' && (c as u32) + 32 == (k as u32));
        if !folded {
            return false;
        }
        i = i + 1;
    }
    true
}

/// Whether `a` and `b` hold the same characters.
pub fn same_text(a: &str, b: &str) -> (r: bool)
    ensures
        r == (a@ == b@),
{
    let n = a.unicode_len();
    if n != b.unicode_len() {
        return false;
    }
    let mut i: usize = 0;
    while i < n
        invariant
            n == a@.len(),
            n == b@.len(),
            i <= n,
            forall|j: int| 0 <= j < i ==> a@[j] == b@[j],
        decreases n - i,
    {
        if a.get_char(i) != b.get_char(i) {
            return false;
        }
        i = i + 1;
    }
    assert(a@ =~= b@);
    true
}

/// The phrase rule of the first entry of `table` that `token` spells, or
/// `None` when it spells none of them.
pub fn lookup_keyword(table: &Vec<(&str, KeywordPhrase)>, token: &str) -> (r: Option<
    KeywordPhrase,
>)
    ensures
        r == lookup(table_view(table@), token@),
{
    let ghost tv = table_view(table@);
    let mut i: usize = 0;
    assert(tv.subrange(0, tv.len() as int) =~= tv);
    while i < table.len()
        invariant
            tv == table_view(table@),
            i <= table@.len(),
            lookup(tv, token@) == lookup(tv.subrange(i as int, tv.len() as int), token@),
        decreases table@.len() - i,
    {
        let (key, rule) = table[i];
        proof {
            assert(tv.subrange(i as int, tv.len() as int).drop_first() =~= tv.subrange(
                i + 1,
                tv.len() as int,
            ));
        }
        if spells_keyword(token, key) {
            return Some(rule);
        }
        i = i + 1;
    }
    None
}

} // verus!
