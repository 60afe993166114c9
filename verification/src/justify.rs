//! Minimum-raggedness line breaking, in the style of classic text
//! justification: dynamic programming over item widths that minimizes the
//! total "badness" of the produced lines, where a line's badness is the
//! cube of its unused space.

use vstd::prelude::*;

use crate::estimate::cap_cube;

verus! {

pub open spec fn min_usize(a: usize, b: usize) -> usize {
    if a <= b {
        a
    } else {
        b
    }
}

/// Length of the line covering the items `[i..c)`, with the separator
/// counted between adjacent items, clamped to `ml` as it grows.
pub open spec fn line_len(lens: Seq<usize>, sep: usize, ml: usize, i: int, c: int) -> usize
    decreases c - i,
{
    if !(0 <= i && i < c && c <= lens.len()) {
        0
    } else if c == i + 1 {
        min_usize(lens[i], ml)
    } else {
        min_usize(
            line_len(lens, sep, ml, i, c - 1).saturating_add(lens[c - 1]).saturating_add(sep),
            ml,
        )
    }
}

/// Badness of the line covering the items `[i..c)`: the cube of its unused
/// space.  A line that reaches the target width contributes nothing.
pub open spec fn line_badness(lens: Seq<usize>, sep: usize, ml: usize, i: int, c: int) -> usize {
    cap_cube((ml - line_len(lens, sep, ml, i, c)) as usize)
}

/// One step of the search for the best break after item `i`: having already
/// considered the breaks in `[i+1, c)` with `(bb, bj)` the best so far,
/// consider `c` and the positions after it.  The search stops at the first
/// line that reaches the target width.  Ties keep the earliest break.
pub open spec fn scan_best(
    lens: Seq<usize>,
    sep: usize,
    ml: usize,
    i: int,
    c: int,
    bb: usize,
    bj: int,
) -> (usize, int)
    decreases lens.len() - i, lens.len() - c + 1,
{
    if !(0 <= i && i < c && c <= lens.len()) {
        (bb, bj)
    } else {
        let b = line_badness(lens, sep, ml, i, c).saturating_add(best_cost(lens, sep, ml, c));
        let nb = if b < bb {
            b
        } else {
            bb
        };
        let nj = if b < bb {
            c
        } else {
            bj
        };
        if line_len(lens, sep, ml, i, c) >= ml || c == lens.len() {
            (nb, nj)
        } else {
            scan_best(lens, sep, ml, i, c + 1, nb, nj)
        }
    }
}

/// The least total badness of any way to break the items `[i..n)` into
/// lines, under the search discipline of [`scan_best`].
pub open spec fn best_cost(lens: Seq<usize>, sep: usize, ml: usize, i: int) -> usize
    decreases lens.len() - i, lens.len() - i + 2,
{
    if !(0 <= i && i < lens.len()) {
        0
    } else {
        scan_best(lens, sep, ml, i, i + 1, usize::MAX, lens.len() as int).0
    }
}

/// The break position after item `i` that achieves [`best_cost`].
pub open spec fn best_next(lens: Seq<usize>, sep: usize, ml: usize, i: int) -> int {
    if !(0 <= i && i < lens.len()) {
        lens.len() as int
    } else {
        scan_best(lens, sep, ml, i, i + 1, usize::MAX, lens.len() as int).1
    }
}

/// The chain of break positions chosen by the justifier, starting at item
/// `i`: each position is the best break after the previous one, and the
/// chain ends at the item count.
pub open spec fn break_chain(lens: Seq<usize>, sep: usize, ml: usize, i: int) -> Seq<usize>
    decreases lens.len() - i,
{
    if !(0 <= i && i < lens.len()) {
        Seq::empty()
    } else if best_next(lens, sep, ml, i) <= i || best_next(lens, sep, ml, i) > lens.len() {
        Seq::empty()
    } else {
        seq![best_next(lens, sep, ml, i) as usize] + break_chain(
            lens,
            sep,
            ml,
            best_next(lens, sep, ml, i),
        )
    }
}

/// The result of `scan_best` keeps its best break inside `(i, n]` whenever
/// the accumulator's is.
pub proof fn lemma_scan_best_range(
    lens: Seq<usize>,
    sep: usize,
    ml: usize,
    i: int,
    c: int,
    bb: usize,
    bj: int,
)
    requires
        i < bj <= lens.len(),
    ensures
        i < scan_best(lens, sep, ml, i, c, bb, bj).1 <= lens.len(),
    decreases lens.len() - i, lens.len() - c + 1,
{
    if !(0 <= i && i < c && c <= lens.len()) {
    } else {
        let b = line_badness(lens, sep, ml, i, c).saturating_add(best_cost(lens, sep, ml, c));
        let nb = if b < bb {
            b
        } else {
            bb
        };
        let nj = if b < bb {
            c
        } else {
            bj
        };
        if line_len(lens, sep, ml, i, c) >= ml || c == lens.len() {
        } else {
            lemma_scan_best_range(lens, sep, ml, i, c + 1, nb, nj);
        }
    }
}

/// The best break after item `i` lies strictly after it and not past the
/// item count.
pub proof fn lemma_best_next_range(lens: Seq<usize>, sep: usize, ml: usize, i: int)
    requires
        0 <= i < lens.len(),
    ensures
        i < best_next(lens, sep, ml, i) <= lens.len(),
{
    lemma_scan_best_range(lens, sep, ml, i, i + 1, usize::MAX, lens.len() as int);
}

struct Score {
    badness: usize,
    j: usize,
}

/// Saturating cube.
fn sat_cube(d: usize) -> (r: usize)
    ensures
        r == cap_cube(d),
{
    match d.checked_mul(d) {
        Some(s) => match s.checked_mul(d) {
            Some(c) => c,
            None => usize::MAX,
        },
        None => {
            proof {
                assert(d * d > usize::MAX);
                assert(d >= 2) by {
                    if d < 2 {
                        assert(d * d <= 1) by (nonlinear_arith)
                            requires
                                d < 2,
                        ;
                    }
                }
                assert(usize::MAX * d >= usize::MAX * 2 > usize::MAX) by (nonlinear_arith)
                    requires
                        d >= 2,
                ;
            }
            usize::MAX
        },
    }
}

/// Choose line breaks for items of the given widths, minimizing the total
/// cubed unused space of the produced lines.
///
/// Appends to `output` the ordered break positions: a break stands before
/// each returned item index, and the final entry is the item count.
#[verifier::loop_isolation(false)]
pub fn text_justify(
    sep_length: usize,
    doc_lengths: &Vec<usize>,
    max_width: usize,
    output: &mut Vec<usize>,
)
    ensures
        final(output)@ == old(output)@ + break_chain(doc_lengths@, sep_length, max_width, 0),
{
    let n = doc_lengths.len();
    let ghost lens = doc_lengths@;
    let ghost sep = sep_length;
    let ghost ml = max_width;

    let mut memo: Vec<Score> = Vec::new();
    let mut k: usize = 0;
    while k < n
        invariant
            memo@.len() == k,
            k <= n,
            n == lens.len(),
            forall|t: int| 0 <= t < k ==> memo@[t].badness == usize::MAX && memo@[t].j == n,
        decreases n - k,
    {
        memo.push(Score { badness: usize::MAX, j: n });
        k += 1;
    }
    memo.push(Score { badness: 0, j: 0 });

    let mut ii: usize = n;
    while ii > 0
        invariant
            ii <= n,
            n == lens.len(),
            memo@.len() == n + 1,
            memo@[n as int].badness == 0,
            forall|t: int|
                ii <= t < n ==> memo@[t].badness == best_cost(lens, sep, ml, t) && memo@[t].j
                    == best_next(lens, sep, ml, t),
        decreases ii,
    {
        let i = ii - 1;
        let mut bb: usize = usize::MAX;
        let mut bj: usize = n;
        let mut c: usize = i + 1;
        let mut ll: usize = 0;
        let mut done: bool = false;
        while !done
            invariant
                i + 1 <= c <= n,
                i < n,
                i < bj <= n,
                !done ==> scan_best(lens, sep, ml, i as int, c as int, bb, bj as int) == scan_best(
                    lens,
                    sep,
                    ml,
                    i as int,
                    i as int + 1,
                    usize::MAX,
                    lens.len() as int,
                ),
                !done && c > i + 1 ==> ll == line_len(lens, sep, ml, i as int, c as int - 1),
                !done && c == i + 1 ==> ll == 0,
                done ==> bb == best_cost(lens, sep, ml, i as int),
                done ==> bj as int == best_next(lens, sep, ml, i as int),
            decreases (n - c) + if done {
                0int
            } else {
                1int
            },
        {
            ll = ll.saturating_add(doc_lengths[c - 1]);
            if c - 1 > i {
                ll = ll.saturating_add(sep_length);
            }
            if ll > max_width {
                ll = max_width;
            }
            proof {
                assert(ll == line_len(lens, sep, ml, i as int, c as int));
            }
            let next_badness = if c < n {
                memo[c].badness
            } else {
                0
            };
            proof {
                assert(next_badness == best_cost(lens, sep, ml, c as int));
            }
            let d = max_width - ll;
            let b = sat_cube(d).saturating_add(next_badness);
            if b < bb {
                bb = b;
                bj = c;
            }
            if ll >= max_width || c == n {
                done = true;
            } else {
                c += 1;
            }
        }
        memo.set(i, Score { badness: bb, j: bj });
        ii = i;
    }

    let mut i: usize = 0;
    while i < n
        invariant
            n == lens.len(),
            memo@.len() == n + 1,
            i <= n,
            forall|t: int|
                0 <= t < n ==> memo@[t].badness == best_cost(lens, sep, ml, t) && memo@[t].j
                    == best_next(lens, sep, ml, t),
            output@ == old(output)@ + break_chain(lens, sep, ml, 0).take(
                output@.len() - old(output)@.len(),
            ),
            break_chain(lens, sep, ml, 0) == break_chain(lens, sep, ml, 0).take(
                output@.len() - old(output)@.len(),
            ) + break_chain(lens, sep, ml, i as int),
            output@.len() >= old(output)@.len(),
        decreases n - i,
    {
        let j = memo[i].j;
        proof {
            lemma_best_next_range(lens, sep, ml, i as int);
            assert(break_chain(lens, sep, ml, i as int) == seq![
                best_next(lens, sep, ml, i as int) as usize,
            ] + break_chain(lens, sep, ml, best_next(lens, sep, ml, i as int)));
        }
        output.push(j);
        proof {
            let ghost m = output@.len() - old(output)@.len();
            assert(output@ == old(output)@ + break_chain(lens, sep, ml, 0).take(m)) by {
                assert(break_chain(lens, sep, ml, 0).take(m) =~= break_chain(lens, sep, ml, 0).take(
                    m - 1,
                ) + seq![j]);
            }
        }
        i = j;
    }
    proof {
        assert(break_chain(lens, sep, ml, i as int) =~= Seq::<usize>::empty());
        assert(output@ =~= old(output)@ + break_chain(lens, sep, ml, 0));
    }
}

} // verus!
