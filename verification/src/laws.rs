//! Laws of the justifier, proved against the model.

use vstd::prelude::*;

use crate::model::{is_space, is_word, join_from, justify_spec, lemma_join_from_len,
    lemma_spaces_len, lemma_sum_lens_concat, line_at_width, lines_of, no_newline, pad_amount,
    render_final, render_from, render_line, scan_words, spaces, split_ws, sum_lens, wrap_state};

verus! {

/// Spacing accounting is exact: with `gaps` gaps on a line, the even share
/// `spaces_to_add / gaps` on every gap plus the remainder
/// `spaces_to_add % gaps` account for the whole space budget; no space is
/// lost or invented.
pub proof fn lemma_spacing_accounting(spaces_to_add: nat, gaps: nat)
    requires
        gaps > 0,
    ensures
        (spaces_to_add / gaps) * gaps + spaces_to_add % gaps == spaces_to_add,
{
    vstd::arithmetic::div_mod::lemma_fundamental_div_mod(spaces_to_add as int, gaps as int);
    vstd::arithmetic::mul::lemma_mul_is_commutative(
        gaps as int,
        spaces_to_add as int / gaps as int,
    );
}

/// The rendered tail from word `i` on takes the word characters, `per`
/// spaces per gap, and one more space on each gap left of `extra`.
pub proof fn lemma_render_from_len(ws: Seq<Seq<char>>, i: int, per: nat, extra: int)
    requires
        0 <= i < ws.len(),
        0 <= extra <= ws.len() - 1,
    ensures
        render_from(ws, i, per, extra).len() == sum_lens(ws.subrange(i, ws.len() as int)) + per * (
        ws.len() - 1 - i) + (if extra > i {
            extra - i
        } else {
            0
        }),
    decreases ws.len() - i,
{
    let tail = ws.subrange(i, ws.len() as int);
    assert(sum_lens(Seq::<Seq<char>>::empty()) == 0);
    if i == ws.len() - 1 {
        assert(tail.drop_last() =~= Seq::<Seq<char>>::empty());
        assert(tail.last() == ws[i]);
        assert(sum_lens(tail) == ws[i].len());
    } else {
        lemma_render_from_len(ws, i + 1, per, extra);
        assert(tail =~= ws.subrange(i, i + 1) + ws.subrange(i + 1, ws.len() as int));
        lemma_sum_lens_concat(ws.subrange(i, i + 1), ws.subrange(i + 1, ws.len() as int));
        assert(ws.subrange(i, i + 1).drop_last() =~= Seq::<Seq<char>>::empty());
        assert(ws.subrange(i, i + 1).last() == ws[i]);
        assert(sum_lens(ws.subrange(i, i + 1)) == ws[i].len());
        let gap = spaces(if i < extra {
            per + 1
        } else {
            per as nat
        });
        lemma_spaces_len(if i < extra {
            per + 1
        } else {
            per as nat
        });
        assert(render_from(ws, i, per, extra).len() == ws[i].len() + gap.len() + render_from(
            ws,
            i + 1,
            per,
            extra,
        ).len());
        assert(per * (ws.len() - 1 - i) == per * (ws.len() - 1 - (i + 1)) + per) by (
        nonlinear_arith);
    }
}

/// Every rendered non-final line is exactly the target width: with two or
/// more words the distributed gaps make up the difference; a single word
/// of length at most `width` is right-padded to it. The precondition is
/// what the greedy wrap guarantees of every line it flushes: the word
/// characters plus one separator per gap fit within the width.
pub proof fn lemma_line_width(ws: Seq<Seq<char>>, width: nat)
    requires
        ws.len() >= 1,
        sum_lens(ws) + ws.len() - 1 <= width,
    ensures
        render_line(ws, width).len() == width,
{
    let budget = pad_amount(width, sum_lens(ws));
    assert(budget == width - sum_lens(ws));
    if ws.len() == 1 {
        assert(ws.drop_last() =~= Seq::<Seq<char>>::empty());
        assert(sum_lens(Seq::<Seq<char>>::empty()) == 0);
        assert(sum_lens(ws) == ws[0].len());
        lemma_spaces_len(budget);
    } else {
        let gaps = (ws.len() - 1) as nat;
        let per = budget / gaps;
        let extra = budget % gaps;
        vstd::arithmetic::div_mod::lemma_mod_division_less_than_divisor(
            budget as int,
            gaps as int,
        );
        lemma_render_from_len(ws, 0, per, extra as int);
        assert(ws.subrange(0, ws.len() as int) =~= ws);
        lemma_spacing_accounting(budget, gaps);
        assert(render_line(ws, width).len() == sum_lens(ws) + per * gaps + extra);
    }
}

/// The final line is exactly the words joined with single spaces, then
/// right-padded with spaces to the target width, whenever the joined words
/// fit within it.
pub proof fn lemma_final_line(ws: Seq<Seq<char>>, width: nat)
    requires
        ws.len() >= 1,
        sum_lens(ws) + ws.len() - 1 <= width,
    ensures
        render_final(ws, width) == join_from(ws, 0) + spaces(
            (width - (sum_lens(ws) + ws.len() - 1)) as nat,
        ),
        render_final(ws, width).len() == width,
{
    lemma_join_from_len(ws, 0);
    assert(ws.subrange(0, ws.len() as int) =~= ws);
    lemma_spaces_len(pad_amount(width, join_from(ws, 0).len()));
}

/// Every token a scan has finished or started is free of whitespace, and
/// the finished ones are non-empty.
pub proof fn lemma_scan_wf(s: Seq<char>)
    ensures
        forall|i: int| 0 <= i < scan_words(s).0.len() ==> is_word(#[trigger] scan_words(s).0[i]),
        forall|j: int| 0 <= j < scan_words(s).1.len() ==> !is_space(#[trigger] scan_words(s).1[j]),
    decreases s.len(),
{
    if s.len() > 0 {
        lemma_scan_wf(s.drop_last());
        let st = scan_words(s.drop_last());
        let c = s.last();
        if is_space(c) {
            if st.1.len() > 0 {
                assert(is_word(st.1));
                assert(forall|i: int|
                    0 <= i < st.0.push(st.1).len() ==> is_word(#[trigger] st.0.push(st.1)[i]));
            }
        } else {
            assert(forall|j: int|
                0 <= j < st.1.push(c).len() ==> !is_space(#[trigger] st.1.push(c)[j]));
        }
    }
}

/// Every word of a split is a word: non-empty and free of whitespace.
pub proof fn lemma_split_wf(s: Seq<char>)
    ensures
        forall|i: int| 0 <= i < split_ws(s).len() ==> is_word(#[trigger] split_ws(s)[i]),
{
    lemma_scan_wf(s);
}

/// A trailing whitespace character adds no word and leaves no partial one.
pub proof fn lemma_split_push_space(x: Seq<char>, c: char)
    requires
        is_space(c),
    ensures
        split_ws(x.push(c)) == split_ws(x),
        scan_words(x.push(c)).1.len() == 0,
{
    assert(x.push(c).drop_last() =~= x);
    assert(x.push(c).last() == c);
}

/// Scanning a concatenation continues the left scan, provided the left
/// part left no partial word pending.
pub proof fn lemma_scan_concat(x: Seq<char>, y: Seq<char>)
    requires
        scan_words(x).1.len() == 0,
    ensures
        scan_words(x + y).0 == scan_words(x).0 + scan_words(y).0,
        scan_words(x + y).1 == scan_words(y).1,
    decreases y.len(),
{
    if y.len() == 0 {
        assert(x + y =~= x);
        assert(scan_words(x).0 + scan_words(y).0 =~= scan_words(x).0);
    } else {
        lemma_scan_concat(x, y.drop_last());
        assert((x + y).drop_last() =~= x + y.drop_last());
        assert((x + y).last() == y.last());
        let st = scan_words(x + y.drop_last());
        let sty = scan_words(y.drop_last());
        if is_space(y.last()) {
            if sty.1.len() == 0 {
            } else {
                assert(st.0.push(st.1) =~= scan_words(x).0 + sty.0.push(sty.1));
            }
        } else {
            assert(st.1.push(y.last()) =~= sty.1.push(y.last()));
        }
    }
}

/// Splitting a concatenation splits the parts, provided the left part left
/// no partial word pending.
pub proof fn lemma_split_concat(x: Seq<char>, y: Seq<char>)
    requires
        scan_words(x).1.len() == 0,
    ensures
        split_ws(x + y) == split_ws(x) + split_ws(y),
{
    lemma_scan_concat(x, y);
    let sty = scan_words(y);
    if sty.1.len() == 0 {
    } else {
        assert((scan_words(x).0 + sty.0).push(sty.1) =~= scan_words(x).0 + sty.0.push(sty.1));
    }
}

/// Scanning a single word reads it whole as the pending partial word.
pub proof fn lemma_scan_word(w: Seq<char>)
    requires
        forall|i: int| 0 <= i < w.len() ==> !is_space(#[trigger] w[i]),
    ensures
        scan_words(w).0 == Seq::<Seq<char>>::empty(),
        scan_words(w).1 == w,
    decreases w.len(),
{
    if w.len() == 0 {
    } else {
        lemma_scan_word(w.drop_last());
        assert(!is_space(w.last()));
        assert(w.drop_last().push(w.last()) =~= w);
    }
}

/// A word followed by at least one space scans to exactly that word, with
/// nothing pending.
pub proof fn lemma_scan_word_pad(w: Seq<char>, k: nat)
    requires
        is_word(w),
        k >= 1,
    ensures
        scan_words(w + spaces(k)).0 == seq![w],
        scan_words(w + spaces(k)).1.len() == 0,
    decreases k,
{
    if k == 1 {
        lemma_scan_word(w);
        assert(spaces(0) =~= Seq::<char>::empty());
        assert(w + spaces(1) =~= w.push(' '));
        assert(w.push(' ').drop_last() =~= w);
        assert(w.push(' ').last() == ' ');
        assert(scan_words(w).0.push(w) =~= seq![w]);
        assert(scan_words(w + spaces(1)).0 =~= seq![w]);
    } else {
        lemma_scan_word_pad(w, (k - 1) as nat);
        let prev = w + spaces((k - 1) as nat);
        assert(w + spaces(k) =~= prev.push(' '));
        assert(prev.push(' ').drop_last() =~= prev);
        assert(prev.push(' ').last() == ' ');
    }
}

/// Trailing spaces never change the words of a string.
pub proof fn lemma_split_trailing_spaces(x: Seq<char>, k: nat)
    ensures
        split_ws(x + spaces(k)) == split_ws(x),
    decreases k,
{
    if k == 0 {
        assert(x + spaces(0) =~= x);
    } else {
        lemma_split_trailing_spaces(x, (k - 1) as nat);
        assert(x + spaces(k) =~= (x + spaces((k - 1) as nat)).push(' '));
        lemma_split_push_space(x + spaces((k - 1) as nat), ' ');
    }
}

/// Joining with single spaces renders with one space on every gap and no
/// remainder.
pub proof fn lemma_join_is_render(ws: Seq<Seq<char>>, i: int)
    ensures
        join_from(ws, i) == render_from(ws, i, 1, 0),
    decreases ws.len() - i,
{
    if 0 <= i < ws.len() - 1 {
        lemma_join_is_render(ws, i + 1);
        assert(spaces(0) =~= Seq::<char>::empty());
        assert(spaces(1) =~= seq![' ']);
        assert(ws[i] + seq![' '] + join_from(ws, i + 1) =~= ws[i] + spaces(1) + render_from(
            ws,
            i + 1,
            1,
            0,
        ));
    }
}

/// Splitting a rendered tail yields exactly its words, whenever every gap
/// carries at least one space and the words are words.
pub proof fn lemma_split_render_from(ws: Seq<Seq<char>>, i: int, per: nat, extra: int)
    requires
        0 <= i < ws.len(),
        per >= 1,
        forall|j: int| 0 <= j < ws.len() ==> is_word(#[trigger] ws[j]),
    ensures
        split_ws(render_from(ws, i, per, extra)) == ws.subrange(i, ws.len() as int),
    decreases ws.len() - i,
{
    if i == ws.len() - 1 {
        lemma_scan_word(ws[i]);
        assert(scan_words(ws[i]).0.push(ws[i]) =~= seq![ws[i]]);
        assert(ws.subrange(i, ws.len() as int) =~= seq![ws[i]]);
    } else {
        lemma_split_render_from(ws, i + 1, per, extra);
        let g = if i < extra {
            per + 1
        } else {
            per as nat
        };
        let x = ws[i] + spaces(g);
        lemma_scan_word_pad(ws[i], g);
        assert(render_from(ws, i, per, extra) =~= x + render_from(ws, i + 1, per, extra));
        lemma_split_concat(x, render_from(ws, i + 1, per, extra));
        assert(split_ws(x) =~= seq![ws[i]]);
        assert(seq![ws[i]] + ws.subrange(i + 1, ws.len() as int) =~= ws.subrange(
            i,
            ws.len() as int,
        ));
    }
}

/// Splitting a rendered full line yields exactly its words, under what the
/// greedy wrap guarantees of every line it flushes: a lone word, or words
/// whose characters plus one separator per gap fit within the width.
pub proof fn lemma_split_render_line(ws: Seq<Seq<char>>, width: nat)
    requires
        ws.len() >= 1,
        forall|j: int| 0 <= j < ws.len() ==> is_word(#[trigger] ws[j]),
        ws.len() >= 2 ==> sum_lens(ws) + ws.len() - 1 <= width,
    ensures
        split_ws(render_line(ws, width)) == ws,
{
    let budget = pad_amount(width, sum_lens(ws));
    if ws.len() == 1 {
        lemma_split_trailing_spaces(ws[0], budget);
        lemma_scan_word(ws[0]);
        assert(scan_words(ws[0]).0.push(ws[0]) =~= seq![ws[0]]);
        assert(ws =~= seq![ws[0]]);
    } else {
        let gaps = (ws.len() - 1) as nat;
        vstd::arithmetic::div_mod::lemma_div_non_zero(budget as int, gaps as int);
        lemma_split_render_from(ws, 0, budget / gaps, (budget % gaps) as int);
        assert(ws.subrange(0, ws.len() as int) =~= ws);
    }
}

/// Splitting a rendered final line yields exactly its words.
pub proof fn lemma_split_render_final(ws: Seq<Seq<char>>, width: nat)
    requires
        ws.len() >= 1,
        forall|j: int| 0 <= j < ws.len() ==> is_word(#[trigger] ws[j]),
    ensures
        split_ws(render_final(ws, width)) == ws,
{
    lemma_split_trailing_spaces(join_from(ws, 0), pad_amount(width, join_from(ws, 0).len()));
    lemma_join_is_render(ws, 0);
    lemma_split_render_from(ws, 0, 1, 0);
    assert(ws.subrange(0, ws.len() as int) =~= ws);
}

/// The greedy wrap loses no word and invents none: at every point, the
/// words of the flushed output followed by the pending line are exactly
/// the words consumed so far; the output ends at a line break; and any
/// pending line of two or more words still fits the width with one
/// separator per gap.
pub proof fn lemma_wrap_preserves(words: Seq<Seq<char>>, width: nat)
    requires
        forall|j: int| 0 <= j < words.len() ==> is_word(#[trigger] words[j]),
    ensures
        split_ws(wrap_state(words, width).0) + wrap_state(words, width).1 == words,
        scan_words(wrap_state(words, width).0).1.len() == 0,
        wrap_state(words, width).1.len() >= 2 ==> sum_lens(wrap_state(words, width).1)
            + wrap_state(words, width).1.len() - 1 <= width,
    decreases words.len(),
{
    if words.len() == 0 {
        assert(split_ws(wrap_state(words, width).0) + wrap_state(words, width).1 =~= words);
    } else {
        lemma_wrap_preserves(words.drop_last(), width);
        let st = wrap_state(words.drop_last(), width);
        let w = words.last();
        assert(forall|j: int|
            0 <= j < words.drop_last().len() ==> is_word(#[trigger] words.drop_last()[j]));
        assert(forall|i: int| 0 <= i < st.1.len() ==> is_word(#[trigger] st.1[i])) by {
            assert(forall|i: int| 0 <= i < st.1.len() ==> st.1[i] == (split_ws(st.0) + st.1)[
                split_ws(st.0).len() + i
            ]);
        }
        if st.1.len() > 0 && sum_lens(st.1) + w.len() + st.1.len() > width {
            let line = render_line(st.1, width);
            lemma_split_render_line(st.1, width);
            lemma_split_concat(st.0, line);
            lemma_split_push_space(st.0 + line, '\n');
            assert(st.0 + line + seq!['\n'] =~= (st.0 + line).push('\n'));
            assert(split_ws(st.0) + st.1 + seq![w] =~= words);
        } else {
            assert(split_ws(st.0) + st.1.push(w) =~= (split_ws(st.0) + st.1).push(w));
            assert((split_ws(st.0) + st.1).push(w) =~= words);
            assert(st.1.push(w).drop_last() =~= st.1);
        }
    }
}

/// Word preservation: the justified output holds exactly the words of the
/// input, in the same order; only the spacing between them changes.
pub proof fn lemma_words_preserved(s: Seq<char>, width: nat)
    ensures
        split_ws(justify_spec(s, width)) == split_ws(s),
{
    let words = split_ws(s);
    lemma_split_wf(s);
    lemma_wrap_preserves(words, width);
    let st = wrap_state(words, width);
    if st.1.len() == 0 {
        assert(split_ws(st.0) =~= split_ws(st.0) + st.1);
    } else {
        assert(forall|i: int| 0 <= i < st.1.len() ==> is_word(#[trigger] st.1[i])) by {
            assert(forall|i: int| 0 <= i < st.1.len() ==> st.1[i] == (split_ws(st.0) + st.1)[
                split_ws(st.0).len() + i
            ]);
        }
        lemma_split_render_final(st.1, width);
        lemma_split_concat(st.0, render_final(st.1, width));
    }
}

/// A block always has at least one line.
pub proof fn lemma_lines_len(s: Seq<char>)
    ensures
        lines_of(s).len() >= 1,
    decreases s.len(),
{
    if s.len() > 0 {
        lemma_lines_len(s.drop_last());
    }
}

/// Appending newline-free text extends the last line and nothing else.
pub proof fn lemma_lines_extend(a: Seq<char>, b: Seq<char>)
    requires
        no_newline(b),
    ensures
        lines_of(a + b) == lines_of(a).update(
            lines_of(a).len() - 1,
            lines_of(a).last() + b,
        ),
    decreases b.len(),
{
    lemma_lines_len(a);
    let la = lines_of(a);
    if b.len() == 0 {
        assert(a + b =~= a);
        assert(la.last() + b =~= la.last());
        assert(la.update(la.len() - 1, la.last() + b) =~= la);
    } else {
        assert(no_newline(b.drop_last())) by {
            assert(forall|i: int| 0 <= i < b.drop_last().len() ==> b.drop_last()[i] == b[i]);
        }
        lemma_lines_extend(a, b.drop_last());
        assert((a + b).drop_last() =~= a + b.drop_last());
        assert((a + b).last() == b.last());
        assert(b.last() != '\n');
        let prev = lines_of(a + b.drop_last());
        assert(prev.last() == la.last() + b.drop_last());
        assert((la.last() + b.drop_last()).push(b.last()) =~= la.last() + b);
        assert(prev.update(prev.len() - 1, prev.last().push(b.last())) =~= la.update(
            la.len() - 1,
            la.last() + b,
        ));
    }
}

/// A word holds no newline: a newline is whitespace.
pub proof fn lemma_word_no_newline(w: Seq<char>)
    requires
        is_word(w),
    ensures
        no_newline(w),
{
    assert(forall|i: int| 0 <= i < w.len() ==> w[i] != '\n') by {
        assert(is_space('\n'));
    }
}

/// A run of spaces holds no newline.
pub proof fn lemma_spaces_no_newline(n: nat)
    ensures
        no_newline(spaces(n)),
    decreases n,
{
    if n > 0 {
        lemma_spaces_no_newline((n - 1) as nat);
        assert(forall|i: int|
            0 <= i < spaces(n).len() ==> spaces(n)[i] == (if i < spaces((n - 1) as nat).len() {
                spaces((n - 1) as nat)[i]
            } else {
                ' '
            }));
    }
}

/// Newline-free pieces concatenate to a newline-free piece.
pub proof fn lemma_no_newline_concat(a: Seq<char>, b: Seq<char>)
    requires
        no_newline(a),
        no_newline(b),
    ensures
        no_newline(a + b),
{
    assert forall|k: int| 0 <= k < (a + b).len() implies (a + b)[k] != '\n' by {
        if k < a.len() {
            assert((a + b)[k] == a[k]);
        } else {
            assert((a + b)[k] == b[k - a.len()]);
        }
    }
}

/// A rendered tail of words holds no newline.
pub proof fn lemma_render_from_no_newline(ws: Seq<Seq<char>>, i: int, per: nat, extra: int)
    requires
        0 <= i < ws.len(),
        forall|j: int| 0 <= j < ws.len() ==> is_word(#[trigger] ws[j]),
    ensures
        no_newline(render_from(ws, i, per, extra)),
    decreases ws.len() - i,
{
    lemma_word_no_newline(ws[i]);
    if i < ws.len() - 1 {
        lemma_render_from_no_newline(ws, i + 1, per, extra);
        let g = if i < extra {
            per + 1
        } else {
            per as nat
        };
        lemma_spaces_no_newline(g);
        lemma_no_newline_concat(ws[i], spaces(g));
        lemma_no_newline_concat(ws[i] + spaces(g), render_from(ws, i + 1, per, extra));
    }
}

/// A rendered full line holds no newline.
pub proof fn lemma_render_line_no_newline(ws: Seq<Seq<char>>, width: nat)
    requires
        ws.len() >= 1,
        forall|j: int| 0 <= j < ws.len() ==> is_word(#[trigger] ws[j]),
    ensures
        no_newline(render_line(ws, width)),
{
    let budget = pad_amount(width, sum_lens(ws));
    if ws.len() == 1 {
        lemma_word_no_newline(ws[0]);
        lemma_spaces_no_newline(budget);
        lemma_no_newline_concat(ws[0], spaces(budget));
    } else {
        let gaps = (ws.len() - 1) as nat;
        lemma_render_from_no_newline(ws, 0, budget / gaps, (budget % gaps) as int);
    }
}

/// A rendered final line holds no newline.
pub proof fn lemma_render_final_no_newline(ws: Seq<Seq<char>>, width: nat)
    requires
        ws.len() >= 1,
        forall|j: int| 0 <= j < ws.len() ==> is_word(#[trigger] ws[j]),
    ensures
        no_newline(render_final(ws, width)),
{
    lemma_join_is_render(ws, 0);
    lemma_render_from_no_newline(ws, 0, 1, 0);
    let joined = join_from(ws, 0);
    let p = pad_amount(width, joined.len());
    lemma_spaces_no_newline(p);
    lemma_no_newline_concat(joined, spaces(p));
}

/// Through the greedy wrap, the flushed output always ends in an empty
/// last line (everything flushed is newline-terminated), and every line
/// before it stands at the target width as far as its words allow.
pub proof fn lemma_wrap_lines(words: Seq<Seq<char>>, width: nat)
    requires
        forall|j: int| 0 <= j < words.len() ==> is_word(#[trigger] words[j]),
    ensures
        lines_of(wrap_state(words, width).0).last() == Seq::<char>::empty(),
        forall|i: int|
            0 <= i < lines_of(wrap_state(words, width).0).len() - 1 ==> line_at_width(
                #[trigger] lines_of(wrap_state(words, width).0)[i],
                width,
            ),
    decreases words.len(),
{
    if words.len() > 0 {
        lemma_wrap_lines(words.drop_last(), width);
        lemma_wrap_preserves(words.drop_last(), width);
        let st = wrap_state(words.drop_last(), width);
        let w = words.last();
        assert(forall|j: int|
            0 <= j < words.drop_last().len() ==> is_word(#[trigger] words.drop_last()[j]));
        if st.1.len() > 0 && sum_lens(st.1) + w.len() + st.1.len() > width {
            assert(forall|i: int| 0 <= i < st.1.len() ==> is_word(#[trigger] st.1[i])) by {
                assert(forall|i: int| 0 <= i < st.1.len() ==> st.1[i] == (split_ws(st.0) + st.1)[
                    split_ws(st.0).len() + i
                ]);
            }
            let line = render_line(st.1, width);
            let la = lines_of(st.0);
            lemma_lines_len(st.0);
            lemma_render_line_no_newline(st.1, width);
            lemma_lines_extend(st.0, line);
            assert(la.last() + line =~= line);
            let mid = lines_of(st.0 + line);
            assert(st.0 + line + seq!['\n'] =~= (st.0 + line).push('\n'));
            assert((st.0 + line).push('\n').drop_last() =~= st.0 + line);
            assert(lines_of((st.0 + line).push('\n')) == mid.push(Seq::<char>::empty()));
            lemma_split_render_line(st.1, width);
            assert(line_at_width(line, width)) by {
                if st.1.len() >= 2 {
                    lemma_line_width(st.1, width);
                } else {
                    assert(st.1.len() == 1);
                    assert(sum_lens(st.1) == st.1[0].len()) by {
                        assert(st.1.drop_last() =~= Seq::<Seq<char>>::empty());
                        assert(st.1.last() == st.1[0]);
                        assert(sum_lens(Seq::<Seq<char>>::empty()) == 0);
                    }
                    if st.1[0].len() <= width {
                        lemma_line_width(st.1, width);
                    }
                }
            }
            let out2 = lines_of(wrap_state(words, width).0);
            assert(out2 == mid.push(Seq::<char>::empty()));
            assert forall|i: int| 0 <= i < out2.len() - 1 implies line_at_width(
                #[trigger] out2[i],
                width,
            ) by {
                if i < la.len() - 1 {
                    assert(out2[i] == la[i]);
                } else {
                    assert(out2[i] == line);
                }
            }
        }
    }
}

/// Every non-final line of the justified output stands at exactly the
/// target width when it carries two or more words, and when it carries one
/// word no longer than the width; only a lone over-long word exceeds it.
/// The last line of the output is the rendered final line of the words the
/// wrap had left over.
pub proof fn lemma_output_line_widths(s: Seq<char>, width: nat)
    ensures
        forall|i: int|
            0 <= i < lines_of(justify_spec(s, width)).len() - 1 ==> line_at_width(
                #[trigger] lines_of(justify_spec(s, width))[i],
                width,
            ),
        wrap_state(split_ws(s), width).1.len() > 0 ==> lines_of(justify_spec(s, width)).last()
            == render_final(wrap_state(split_ws(s), width).1, width),
        wrap_state(split_ws(s), width).1.len() == 0 ==> lines_of(justify_spec(s, width)).last()
            == Seq::<char>::empty(),
{
    let words = split_ws(s);
    lemma_split_wf(s);
    lemma_wrap_lines(words, width);
    lemma_wrap_preserves(words, width);
    let st = wrap_state(words, width);
    let la = lines_of(st.0);
    lemma_lines_len(st.0);
    if st.1.len() > 0 {
        assert(forall|i: int| 0 <= i < st.1.len() ==> is_word(#[trigger] st.1[i])) by {
            assert(forall|i: int| 0 <= i < st.1.len() ==> st.1[i] == (split_ws(st.0) + st.1)[
                split_ws(st.0).len() + i
            ]);
        }
        let fin = render_final(st.1, width);
        lemma_render_final_no_newline(st.1, width);
        lemma_lines_extend(st.0, fin);
        assert(la.last() + fin =~= fin);
        let out2 = lines_of(justify_spec(s, width));
        assert(out2 == la.update(la.len() - 1, fin));
        assert(out2.last() == fin);
        assert forall|i: int| 0 <= i < out2.len() - 1 implies line_at_width(
            #[trigger] out2[i],
            width,
        ) by {
            assert(out2[i] == la[i]);
        }
    }
}

/// Idempotence is no part of the justifier's contract and callers should
/// not lean on it; still, at one and the same width it does hold, as a
/// consequence of word preservation: re-justifying an already-justified
/// block finds the same words and so wraps them the same way. At a
/// different width the block re-wraps.
pub proof fn lemma_rejustify_same_width(s: Seq<char>, width: nat)
    ensures
        justify_spec(justify_spec(s, width), width) == justify_spec(s, width),
{
    lemma_words_preserved(s, width);
}

/// An empty input justifies to an empty output.
pub proof fn lemma_empty_input(width: nat)
    ensures
        justify_spec(Seq::<char>::empty(), width) == Seq::<char>::empty(),
{
    assert(scan_words(Seq::<char>::empty()).0 =~= Seq::<Seq<char>>::empty());
    assert(split_ws(Seq::<char>::empty()) =~= Seq::<Seq<char>>::empty());
    assert(wrap_state(Seq::<Seq<char>>::empty(), width).0 =~= Seq::<char>::empty());
}

} // verus!
