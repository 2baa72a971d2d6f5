//! The aligned rendering of the segmenter's output: labels right-justified to
//! a common width, each followed by a space and its body.
use vstd::prelude::*;
use crate::segmenter::strings;

verus! {

/// The largest length among the labels (even indices) of `out` below index `n`.
pub open spec fn widest(out: Seq<Seq<char>>, n: int) -> nat
    decreases n,
{
    if n <= 0 {
        0
    } else {
        let rest = widest(out, n - 1);
        if (n - 1) % 2 == 0 && out[n - 1].len() > rest {
            out[n - 1].len()
        } else {
            rest
        }
    }
}

/// The label width of `out`: the largest length among its labels, leaving
/// out the very last element even where that is a label.
pub open spec fn width_of(out: Seq<Seq<char>>) -> nat {
    widest(out, out.len() - 1)
}

/// `s` right-justified to `w` characters: left-padded with spaces, unchanged
/// when it is already that long.
pub open spec fn pad_left(s: Seq<char>, w: nat) -> Seq<char> {
    if s.len() >= w {
        s
    } else {
        Seq::new((w - s.len()) as nat, |_i: int| ' ') + s
    }
}

/// One output line per (label, body) pair of `out`: the label padded to `w`,
/// a space, and the body.
pub open spec fn render(out: Seq<Seq<char>>, w: nat) -> Seq<Seq<char>> {
    Seq::new(out.len() / 2, |k: int| pad_left(out[2 * k], w) + seq![' '] + out[2 * k + 1])
}

/// `out` with every label (even index) padded to `w`.
pub open spec fn pad_labels(out: Seq<Seq<char>>, w: nat) -> Seq<Seq<char>> {
    Seq::new(
        out.len(),
        |i: int|
            if i % 2 == 0 {
                pad_left(out[i], w)
            } else {
                out[i]
            },
    )
}

/// Padding is idempotent: a label already padded to `w` is left as it is, and
/// a label no longer than `w` comes out exactly `w` characters long.
pub proof fn lemma_pad_idempotent(s: Seq<char>, w: nat)
    ensures
        pad_left(pad_left(s, w), w) == pad_left(s, w),
        s.len() <= w ==> pad_left(s, w).len() == w,
{
}

/// Aligning again is a no-op: when every label of `out` fits in `w`, rendering
/// `out` with its labels already padded to `w` gives the same lines as
/// rendering `out` itself.
pub proof fn lemma_align_idempotent(out: Seq<Seq<char>>, w: nat)
    requires
        forall|i: int| 0 <= i < out.len() && i % 2 == 0 ==> (#[trigger] out[i]).len() <= w,
    ensures
        render(pad_labels(out, w), w) == render(out, w),
        forall|k: int|
            0 <= k < out.len() / 2 ==> (#[trigger] render(out, w)[k]).len() == w + 1 + out[2 * k
                + 1].len(),
{
    let p = pad_labels(out, w);
    assert forall|k: int| 0 <= k < out.len() / 2 implies #[trigger] render(p, w)[k] == render(
        out,
        w,
    )[k] by {
        assert((2 * k) % 2 == 0);
        assert((2 * k + 1) % 2 == 1);
        lemma_pad_idempotent(out[2 * k], w);
    }
    assert(render(p, w) =~= render(out, w));
    assert forall|k: int| 0 <= k < out.len() / 2 implies (#[trigger] render(
        out,
        w,
    )[k]).len() == w + 1 + out[2 * k + 1].len() by {
        assert((2 * k) % 2 == 0);
        lemma_pad_idempotent(out[2 * k], w);
    }
}

/// The label width of `out`: the largest character length among its labels
/// (even indices), leaving out the very last element.
pub fn label_width(out: &Vec<String>) -> (r: usize)
    ensures
        r == width_of(strings(out@)),
{
    let ghost o = strings(out@);
    let n = out.len();
    if n == 0 {
        return 0;
    }
    let mut longest: usize = 0;
    let mut i: usize = 0;
    while i < n - 1
        invariant
            o == strings(out@),
            n == out@.len(),
            n >= 1,
            i <= n - 1,
            longest == widest(o, i as int),
        decreases n - 1 - i,
    {
        if i % 2 == 0 {
            let l = out[i].as_str().unicode_len();
            if l > longest {
                longest = l;
            }
        }
        i = i + 1;
    }
    longest
}

/// `label` right-justified to `width` characters.
pub fn pad_label(label: &str, width: usize) -> (r: String)
    ensures
        r@ == pad_left(label@, width as nat),
{
    let len = label.unicode_len();
    let mut r = String::new();
    if len < width {
        let fill = width - len;
        let mut j: usize = 0;
        while j < fill
            invariant
                j <= fill,
                r@ == Seq::new(j as nat, |_i: int| ' '),
            decreases fill - j,
        {
            r.append(" ");
            proof {
                reveal_strlit(" ");
            }
            assert(r@ =~= Seq::new((j + 1) as nat, |_i: int| ' '));
            j = j + 1;
        }
    }
    r.append(label);
    assert(r@ =~= pad_left(label@, width as nat));
    r
}

/// The lines of the aligned layout: for each (label, body) pair of `out`, the
/// label right-justified to `width`, a space, and the body.
pub fn align_lines(out: &Vec<String>, width: usize) -> (r: Vec<String>)
    requires
        out@.len() % 2 == 0,
    ensures
        strings(r@) == render(strings(out@), width as nat),
{
    let ghost o = strings(out@);
    let mut r: Vec<String> = Vec::new();
    let mut k: usize = 0;
    let n = out.len();
    let pairs = n / 2;
    while k < pairs
        invariant
            o == strings(out@),
            n == out@.len(),
            pairs == n / 2,
            k <= pairs,
            strings(r@) == render(o, width as nat).subrange(0, k as int),
        decreases pairs - k,
    {
        assert(2 * k + 1 < n);
        let mut line = pad_label(out[2 * k].as_str(), width);
        line.append(" ");
        line.append(out[2 * k + 1].as_str());
        proof {
            reveal_strlit(" ");
        }
        let ghost before = strings(r@);
        assert(line@ == render(o, width as nat)[k as int]);
        r.push(line);
        assert(strings(r@) =~= before.push(line@));
        assert(strings(r@) =~= render(o, width as nat).subrange(0, k + 1));
        k = k + 1;
    }
    assert(render(o, width as nat).subrange(0, pairs as int) =~= render(o, width as nat));
    r
}

} // verus!
