//! The mathematical model of justification: whitespace splitting, line
//! rendering with even gap distribution, and the greedy wrap, all as
//! functions over `Seq<char>`.

use vstd::prelude::*;

verus! {

/// A whitespace character: the Unicode `White_Space` code points, the same
/// set that `char::is_whitespace` recognizes.
pub open spec fn is_space(c: char) -> bool {
    let u = c as u32;
    u == 0x09 || u == 0x0A || u == 0x0B || u == 0x0C || u == 0x0D || u == 0x20 || u == 0x85
        || u == 0xA0 || u == 0x1680 || (0x2000 <= u && u <= 0x200A) || u == 0x2028 || u == 0x2029
        || u == 0x202F || u == 0x205F || u == 0x3000
}

/// A word: a non-empty run of non-whitespace characters.
pub open spec fn is_word(w: Seq<char>) -> bool {
    w.len() > 0 && (forall|i: int| 0 <= i < w.len() ==> !is_space(#[trigger] w[i]))
}

/// The state of a left-to-right whitespace-splitting scan over `s`: the
/// words already finished, and the partial word still being read.
pub open spec fn scan_words(s: Seq<char>) -> (Seq<Seq<char>>, Seq<char>)
    decreases s.len(),
{
    if s.len() == 0 {
        (Seq::empty(), Seq::empty())
    } else {
        let st = scan_words(s.drop_last());
        let c = s.last();
        if is_space(c) {
            if st.1.len() == 0 {
                st
            } else {
                (st.0.push(st.1), Seq::empty())
            }
        } else {
            (st.0, st.1.push(c))
        }
    }
}

/// The words of `s`: its maximal runs of non-whitespace characters, in
/// order. Empty tokens never appear.
pub open spec fn split_ws(s: Seq<char>) -> Seq<Seq<char>> {
    let st = scan_words(s);
    if st.1.len() == 0 {
        st.0
    } else {
        st.0.push(st.1)
    }
}

/// The views of a vector of owned words.
pub open spec fn views(ws: Seq<String>) -> Seq<Seq<char>> {
    ws.map_values(|w: String| w@)
}

/// The total character count of the words themselves, spacing excluded.
pub open spec fn sum_lens(ws: Seq<Seq<char>>) -> nat
    decreases ws.len(),
{
    if ws.len() == 0 {
        0
    } else {
        sum_lens(ws.drop_last()) + ws.last().len()
    }
}

/// The character count of the words plus one separator per word; an upper
/// bound on the room a word sequence needs inside its source text plus one.
pub open spec fn words_size(ws: Seq<Seq<char>>) -> nat {
    sum_lens(ws) + ws.len()
}

/// A run of `n` spaces.
pub open spec fn spaces(n: nat) -> Seq<char>
    decreases n,
{
    if n == 0 {
        Seq::empty()
    } else {
        spaces((n - 1) as nat).push(' ')
    }
}

/// The padding left inside `width` once `used` characters stand on the
/// line, clamped at zero: padding never goes negative, so a word longer
/// than the target width stands alone on an over-long, unpadded line.
pub open spec fn pad_amount(width: nat, used: nat) -> nat {
    if used <= width {
        (width - used) as nat
    } else {
        0
    }
}

/// The words of `ws` from index `i` on, rendered with justified gaps: gap
/// `i` carries `per + 1` spaces when `i < extra`, else `per`, so the
/// remainder goes to the leftmost gaps.
pub open spec fn render_from(ws: Seq<Seq<char>>, i: int, per: nat, extra: int) -> Seq<char>
    decreases ws.len() - i,
{
    if i < 0 || i >= ws.len() {
        Seq::empty()
    } else if i == ws.len() - 1 {
        ws[i]
    } else {
        ws[i] + spaces(if i < extra { per + 1 } else { per as nat }) + render_from(
            ws,
            i + 1,
            per,
            extra,
        )
    }
}

/// One full (non-final) line: with two or more words, the space budget
/// `width - sum_lens(ws)` is split evenly over the gaps with the remainder
/// on the leftmost gaps; a single word is right-padded with the budget.
pub open spec fn render_line(ws: Seq<Seq<char>>, width: nat) -> Seq<char> {
    let budget = pad_amount(width, sum_lens(ws));
    if ws.len() == 0 {
        Seq::empty()
    } else if ws.len() == 1 {
        ws[0] + spaces(budget)
    } else {
        let gaps = (ws.len() - 1) as nat;
        render_from(ws, 0, budget / gaps, (budget % gaps) as int)
    }
}

/// The words of `ws` from index `i` on, joined with single spaces.
pub open spec fn join_from(ws: Seq<Seq<char>>, i: int) -> Seq<char>
    decreases ws.len() - i,
{
    if i < 0 || i >= ws.len() {
        Seq::empty()
    } else if i == ws.len() - 1 {
        ws[i]
    } else {
        ws[i] + seq![' '] + join_from(ws, i + 1)
    }
}

/// The final line: the words joined with single spaces, right-padded with
/// spaces up to `width`, and never distributed-justified.
pub open spec fn render_final(ws: Seq<Seq<char>>, width: nat) -> Seq<char> {
    join_from(ws, 0) + spaces(pad_amount(width, join_from(ws, 0).len()))
}

/// The greedy wrap after consuming a prefix of the words: the output
/// emitted so far (each line newline-terminated) and the words accumulated
/// for the line being built. A word is added to the line unless the word
/// lengths gathered so far, plus this word, plus one separator per word
/// already on the line, would exceed `width`; then the line is flushed
/// first and the word starts the next line.
pub open spec fn wrap_state(words: Seq<Seq<char>>, width: nat) -> (Seq<char>, Seq<Seq<char>>)
    decreases words.len(),
{
    if words.len() == 0 {
        (Seq::empty(), Seq::empty())
    } else {
        let st = wrap_state(words.drop_last(), width);
        let w = words.last();
        if st.1.len() > 0 && sum_lens(st.1) + w.len() + st.1.len() > width {
            (st.0 + render_line(st.1, width) + seq!['\n'], seq![w])
        } else {
            (st.0, st.1.push(w))
        }
    }
}

/// The justified block for a word sequence: the flushed lines, then the
/// remaining words as the final line. No words gives the empty block.
pub open spec fn justify_words_spec(words: Seq<Seq<char>>, width: nat) -> Seq<char> {
    let st = wrap_state(words, width);
    if st.1.len() == 0 {
        st.0
    } else {
        st.0 + render_final(st.1, width)
    }
}

/// The justified block for an input string: its whitespace-separated
/// words, greedily wrapped and padded to `width`.
pub open spec fn justify_spec(s: Seq<char>, width: nat) -> Seq<char> {
    justify_words_spec(split_ws(s), width)
}

/// The lines of a block: the pieces between newline characters, in order,
/// empty pieces kept. A block without characters is one empty line.
pub open spec fn lines_of(s: Seq<char>) -> Seq<Seq<char>>
    decreases s.len(),
{
    if s.len() == 0 {
        seq![Seq::<char>::empty()]
    } else if s.last() == '\n' {
        lines_of(s.drop_last()).push(Seq::empty())
    } else {
        let prev = lines_of(s.drop_last());
        prev.update(prev.len() - 1, prev.last().push(s.last()))
    }
}

/// No character of `l` is a newline.
pub open spec fn no_newline(l: Seq<char>) -> bool {
    forall|i: int| 0 <= i < l.len() ==> l[i] != '\n'
}

/// A line that stands at the target width whenever its words allow it: a
/// line of two or more words is exactly `width` long, and so is a line of
/// one word no longer than `width`; only a lone over-long word exceeds it.
pub open spec fn line_at_width(l: Seq<char>, width: nat) -> bool {
    &&& split_ws(l).len() >= 2 ==> l.len() == width
    &&& (split_ws(l).len() == 1 && split_ws(l)[0].len() <= width) ==> l.len() == width
}

/// The room the partial word of a scan state will take once finished: its
/// characters plus one separator, or nothing while it is empty.
pub open spec fn cur_size(cur: Seq<char>) -> nat {
    if cur.len() == 0 {
        0
    } else {
        cur.len() + 1
    }
}

/// Splitting is additive: concatenated word sequences sum their lengths.
pub proof fn lemma_sum_lens_concat(x: Seq<Seq<char>>, y: Seq<Seq<char>>)
    ensures
        sum_lens(x + y) == sum_lens(x) + sum_lens(y),
    decreases y.len(),
{
    if y.len() == 0 {
        assert(x + y =~= x);
    } else {
        lemma_sum_lens_concat(x, y.drop_last());
        assert((x + y).drop_last() =~= x + y.drop_last());
        assert((x + y).last() == y.last());
    }
}

/// A contiguous piece of a word sequence never needs more room than the
/// whole sequence.
pub proof fn lemma_words_size_subrange(ws: Seq<Seq<char>>, a: int, b: int)
    requires
        0 <= a <= b <= ws.len(),
    ensures
        words_size(ws.subrange(a, b)) <= words_size(ws),
{
    let left = ws.subrange(0, a);
    let mid = ws.subrange(a, b);
    let right = ws.subrange(b, ws.len() as int);
    assert(ws =~= (left + mid) + right);
    lemma_sum_lens_concat(left + mid, right);
    lemma_sum_lens_concat(left, mid);
}

/// Words joined with single spaces take their own characters plus one
/// separator per gap.
pub proof fn lemma_join_from_len(ws: Seq<Seq<char>>, i: int)
    requires
        0 <= i < ws.len(),
    ensures
        join_from(ws, i).len() == sum_lens(ws.subrange(i, ws.len() as int)) + ws.len() - i - 1,
    decreases ws.len() - i,
{
    let tail = ws.subrange(i, ws.len() as int);
    assert(sum_lens(Seq::<Seq<char>>::empty()) == 0);
    if i == ws.len() - 1 {
        assert(tail.drop_last() =~= Seq::<Seq<char>>::empty());
        assert(tail.last() == ws[i]);
        assert(sum_lens(tail) == ws[i].len());
    } else {
        lemma_join_from_len(ws, i + 1);
        assert(tail =~= ws.subrange(i, i + 1) + ws.subrange(i + 1, ws.len() as int));
        lemma_sum_lens_concat(ws.subrange(i, i + 1), ws.subrange(i + 1, ws.len() as int));
        assert(ws.subrange(i, i + 1).drop_last() =~= Seq::<Seq<char>>::empty());
        assert(ws.subrange(i, i + 1).last() == ws[i]);
        assert(sum_lens(ws.subrange(i, i + 1)) == ws[i].len());
        assert(join_from(ws, i) == ws[i] + seq![' '] + join_from(ws, i + 1));
        assert(join_from(ws, i).len() == ws[i].len() + 1 + join_from(ws, i + 1).len());
    }
}

/// A run of spaces is as long as the count it was made from.
pub proof fn lemma_spaces_len(n: nat)
    ensures
        spaces(n).len() == n,
    decreases n,
{
    if n > 0 {
        lemma_spaces_len((n - 1) as nat);
    }
}

/// A scan never accounts for more room than the characters read so far
/// plus one; with no partial word pending it stays within them.
pub proof fn lemma_scan_size(s: Seq<char>)
    ensures
        words_size(scan_words(s).0) + cur_size(scan_words(s).1) <= s.len() + 1,
        scan_words(s).1.len() == 0 ==> words_size(scan_words(s).0) <= s.len(),
    decreases s.len(),
{
    if s.len() > 0 {
        lemma_scan_size(s.drop_last());
        let st = scan_words(s.drop_last());
        if is_space(s.last()) && st.1.len() > 0 {
            assert(st.0.push(st.1).drop_last() =~= st.0);
        }
    }
}

/// The words of `s` need at most one character more of room than `s`
/// itself holds: their lengths plus one separator each stay within
/// `s.len() + 1`.
pub proof fn lemma_split_size(s: Seq<char>)
    ensures
        words_size(split_ws(s)) <= s.len() + 1,
{
    lemma_scan_size(s);
    let st = scan_words(s);
    if st.1.len() > 0 {
        assert(st.0.push(st.1).drop_last() =~= st.0);
    }
}

} // verus!
