use vstd::prelude::*;
use crate::summary::NEWLINE;

verus! {

/// The space byte, the only word separator the wrapper recognizes.
pub const SPACE: u8 = 32;

/// Greedy soft-wrap scan.  `i` is the next byte to look at, `ls` the start
/// of the output line being filled, `cand` the start of the latest word
/// that may move to the next line.  A break is recorded at the current
/// word's start when a word byte would make the line exceed `width`
/// columns; a word with no break candidate on its line overflows instead
/// of being split.
pub open spec fn wrap_acc(s: Seq<u8>, width: int, i: int, ls: int, cand: int) -> Seq<int>
    decreases s.len() - i,
{
    if i < 0 || i >= s.len() {
        Seq::empty()
    } else {
        let c = s[i];
        let word_byte = c != SPACE && c != NEWLINE;
        let cand2 = if word_byte && i > 0 && s[i - 1] == SPACE {
            i
        } else {
            cand
        };
        if word_byte && i + 1 - ls > width && cand2 > ls {
            seq![cand2] + wrap_acc(s, width, i + 1, cand2, cand2)
        } else {
            wrap_acc(s, width, i + 1, ls, cand2)
        }
    }
}

/// The ascending byte offsets at which a line of text breaks when wrapped
/// to `width` columns.
pub open spec fn wrap_boundaries_spec(s: Seq<u8>, width: int) -> Seq<int> {
    wrap_acc(s, width, 0, 0, 0)
}

/// Every recorded break lies strictly inside the line, past the line
/// start the scan was at, and the breaks ascend strictly.
pub proof fn lemma_wrap_acc_props(s: Seq<u8>, width: int, i: int, ls: int, cand: int)
    requires
        0 <= ls,
        ls <= cand <= i,
    ensures
        forall|k: int|
            0 <= k < wrap_acc(s, width, i, ls, cand).len() ==> ls < #[trigger] wrap_acc(
                s,
                width,
                i,
                ls,
                cand,
            )[k] < s.len(),
        forall|k: int|
            0 <= k && k + 1 < wrap_acc(s, width, i, ls, cand).len() ==> #[trigger] wrap_acc(
                s,
                width,
                i,
                ls,
                cand,
            )[k] < wrap_acc(s, width, i, ls, cand)[k + 1],
    decreases s.len() - i,
{
    if 0 <= i < s.len() {
        let c = s[i];
        let word_byte = c != SPACE && c != NEWLINE;
        let cand2 = if word_byte && i > 0 && s[i - 1] == SPACE {
            i
        } else {
            cand
        };
        if word_byte && i + 1 - ls > width && cand2 > ls {
            lemma_wrap_acc_props(s, width, i + 1, cand2, cand2);
            let sub = wrap_acc(s, width, i + 1, cand2, cand2);
            let whole = wrap_acc(s, width, i, ls, cand);
            assert(whole == seq![cand2] + sub);
            assert(whole[0] == cand2);
            assert(forall|k: int| 1 <= k < whole.len() ==> whole[k] == sub[k - 1]);
            assert forall|k: int| 0 <= k && k + 1 < whole.len() implies #[trigger] whole[k]
                < whole[k + 1] by {
                if k == 0 {
                    assert(whole[1] == sub[0]);
                } else {
                    assert(whole[k] == sub[k - 1]);
                    assert(whole[k + 1] == sub[k]);
                    assert(sub[k - 1] < sub[k]);
                }
            }
        } else {
            lemma_wrap_acc_props(s, width, i + 1, ls, cand2);
            assert(wrap_acc(s, width, i, ls, cand) == wrap_acc(s, width, i + 1, ls, cand2));
        }
    } else {
        assert(wrap_acc(s, width, i, ls, cand) == Seq::<int>::empty());
    }
}

/// Computes the wrap boundaries of `text[start..end]`, offsets relative
/// to `start`, by the greedy scan `wrap_acc`.
pub fn wrap_boundaries(text: &Vec<u8>, start: usize, end: usize, width: u32) -> (r: Vec<usize>)
    requires
        start <= end <= text@.len(),
    ensures
        r@.map_values(|v: usize| v as int) == wrap_boundaries_spec(
            text@.subrange(start as int, end as int),
            width as int,
        ),
{
    let ghost s = text@.subrange(start as int, end as int);
    let mut r: Vec<usize> = Vec::new();
    let mut i: usize = 0;
    let mut ls: usize = 0;
    let mut cand: usize = 0;
    let len = end - start;
    while i < len
        invariant
            start <= end <= text@.len(),
            s == text@.subrange(start as int, end as int),
            len == end - start,
            0 <= ls <= cand <= i,
            wrap_boundaries_spec(s, width as int) == r@.map_values(|v: usize| v as int)
                + wrap_acc(s, width as int, i as int, ls as int, cand as int),
        decreases len - i,
    {
        let c = text[start + i];
        assert(c == s[i as int]);
        let word_byte = c != SPACE && c != NEWLINE;
        if word_byte && i > 0 && text[start + i - 1] == SPACE {
            assert(s[i as int - 1] == text@[start + i - 1]);
            cand = i;
        }
        if word_byte && i + 1 - ls > width as usize && cand > ls {
            r.push(cand);
            ls = cand;
            proof {
                assert(r@.map_values(|v: usize| v as int) =~= r@.drop_last().map_values(
                    |v: usize| v as int,
                ).push(cand as int));
            }
        }
        i = i + 1;
    }
    proof {
        assert(wrap_boundaries_spec(s, width as int) =~= r@.map_values(|v: usize| v as int));
    }
    r
}

} // verus!
