//! The executable justifier, verified against the model.

use vstd::prelude::*;

use crate::model::{is_space, justify_spec, justify_words_spec, render_final, render_line,
    render_from, join_from, pad_amount, spaces, split_ws, scan_words, sum_lens, views, words_size,
    wrap_state};

verus! {

/// The justifier. It carries no state: every call is an isolated, pure
/// transformation of its arguments.
pub struct JustifyTextExtension {}

impl JustifyTextExtension {
    /// A fresh justifier.
    pub fn new() -> (r: Self)
        ensures
            r == (JustifyTextExtension {  }),
    {
        JustifyTextExtension {  }
    }
}

/// Whether `c` is a whitespace character, exactly as `is_space` states.
fn is_space_char(c: char) -> (r: bool)
    ensures
        r == is_space(c),
{
    let u = c as u32;
    u == 0x09 || u == 0x0A || u == 0x0B || u == 0x0C || u == 0x0D || u == 0x20 || u == 0x85
        || u == 0xA0 || u == 0x1680 || (0x2000 <= u && u <= 0x200A) || u == 0x2028 || u == 0x2029
        || u == 0x202F || u == 0x205F || u == 0x3000
}

/// The whitespace-separated words of `text`, in order, exactly as
/// `split_ws` lists them.
pub fn split_words(text: &str) -> (words: Vec<String>)
    ensures
        views(words@) == split_ws(text@),
        words_size(split_ws(text@)) <= usize::MAX as nat + 1,
{
    let n = text.unicode_len();
    proof {
        crate::model::lemma_split_size(text@);
    }
    let mut words: Vec<String> = Vec::new();
    let mut in_word = false;
    let mut word_start: usize = 0;
    let mut i: usize = 0;
    proof {
        assert(text@.take(0) =~= Seq::<char>::empty());
        assert(views(words@) =~= Seq::<Seq<char>>::empty());
    }
    while i < n
        invariant
            n == text@.len(),
            i <= n,
            in_word ==> word_start < i,
            views(words@) == scan_words(text@.take(i as int)).0,
            scan_words(text@.take(i as int)).1 == (if in_word {
                text@.subrange(word_start as int, i as int)
            } else {
                Seq::<char>::empty()
            }),
        decreases n - i,
    {
        let c = text.get_char(i);
        let ghost prefix = text@.take(i as int);
        proof {
            assert(text@.take(i as int + 1).drop_last() =~= prefix);
            assert(text@.take(i as int + 1).last() == text@[i as int]);
        }
        if is_space_char(c) {
            if in_word {
                let w = text.substring_char(word_start, i).to_owned();
                words.push(w);
                in_word = false;
                proof {
                    assert(views(words@) =~= scan_words(text@.take(i as int + 1)).0);
                }
            }
        } else {
            if !in_word {
                word_start = i;
                in_word = true;
            }
            proof {
                assert(text@.subrange(word_start as int, i as int + 1) =~= scan_words(
                    prefix,
                ).1.push(text@[i as int]));
            }
        }
        i = i + 1;
    }
    proof {
        assert(text@.take(n as int) =~= text@);
    }
    if in_word {
        let w = text.substring_char(word_start, n).to_owned();
        words.push(w);
        proof {
            assert(views(words@) =~= split_ws(text@));
        }
    }
    words
}

/// Appends `n` spaces to `out`.
fn push_spaces(out: &mut String, n: usize)
    ensures
        final(out)@ == old(out)@ + spaces(n as nat),
{
    proof {
        assert(old(out)@ + spaces(0) =~= old(out)@);
    }
    let mut k: usize = 0;
    while k < n
        invariant
            k <= n,
            out@ == old(out)@ + spaces(k as nat),
        decreases n - k,
    {
        out.append(" ");
        proof {
            reveal_strlit(" ");
            assert(old(out)@ + spaces((k + 1) as nat) =~= (old(out)@ + spaces(k as nat)) + " "@);
        }
        k = k + 1;
    }
}

/// Appends to `out` the words `words[start..end]` as one justified line,
/// without a newline: the space budget `line_width - line_length` (clamped
/// at zero) goes evenly into the gaps, leftmost gaps first, or behind a
/// single word.
fn render_line_into(
    out: &mut String,
    words: &Vec<String>,
    start: usize,
    end: usize,
    line_length: usize,
    line_width: usize,
)
    requires
        start < end <= words@.len(),
        line_length == sum_lens(views(words@).subrange(start as int, end as int)),
    ensures
        final(out)@ == old(out)@ + render_line(
            views(words@).subrange(start as int, end as int),
            line_width as nat,
        ),
{
    let ghost ws = views(words@).subrange(start as int, end as int);
    let spaces_to_add = if line_length <= line_width {
        line_width - line_length
    } else {
        0
    };
    let gaps = end - start - 1;
    if gaps == 0 {
        out.append(words[start].as_str());
        push_spaces(out, spaces_to_add);
        proof {
            assert(ws[0] == views(words@)[start as int]);
            assert(out@ =~= old(out)@ + render_line(ws, line_width as nat));
        }
    } else {
        let per = spaces_to_add / gaps;
        let extra = spaces_to_add % gaps;
        let count = end - start;
        let mut i: usize = 0;
        proof {
            assert(out@ + render_from(ws, 0, per as nat, extra as int) =~= old(out)@
                + render_from(ws, 0, per as nat, extra as int));
        }
        while i < count
            invariant
                count == end - start,
                start < end <= words@.len(),
                gaps == count - 1,
                i <= count,
                ws == views(words@).subrange(start as int, end as int),
                out@ + render_from(ws, i as int, per as nat, extra as int) == old(out)@
                    + render_from(ws, 0, per as nat, extra as int),
            decreases count - i,
        {
            out.append(words[start + i].as_str());
            proof {
                assert(ws[i as int] == views(words@)[start + i as int]);
            }
            if i < gaps {
                push_spaces(out, per);
                if i < extra {
                    push_spaces(out, 1);
                    proof {
                        assert(spaces(0) =~= Seq::<char>::empty());
                        assert(spaces(1) =~= seq![' ']);
                        assert(spaces((per + 1) as nat) =~= spaces(per as nat) + spaces(1));
                    }
                }
                proof {
                    assert(out@ + render_from(ws, i as int + 1, per as nat, extra as int)
                        =~= old(out)@ + render_from(ws, 0, per as nat, extra as int));
                }
            } else {
                proof {
                    assert(i == ws.len() - 1);
                    assert(out@ + render_from(ws, i as int + 1, per as nat, extra as int)
                        =~= old(out)@ + render_from(ws, 0, per as nat, extra as int));
                }
            }
            i = i + 1;
        }
        proof {
            assert(render_from(ws, count as int, per as nat, extra as int) =~= Seq::<
                char,
            >::empty());
            assert(out@ =~= out@ + render_from(ws, count as int, per as nat, extra as int));
            assert(render_line(ws, line_width as nat) == render_from(
                ws,
                0,
                per as nat,
                extra as int,
            ));
        }
    }
}

/// Appends to `out` the words `words[start..]` as the final line: joined
/// with single spaces and right-padded with spaces up to `line_width`,
/// never distributed-justified.
fn render_final_into(
    out: &mut String,
    words: &Vec<String>,
    start: usize,
    line_length: usize,
    line_width: usize,
)
    requires
        start < words@.len(),
        line_length == sum_lens(views(words@).subrange(start as int, words@.len() as int)),
        words_size(views(words@)) <= usize::MAX as nat + 1,
    ensures
        final(out)@ == old(out)@ + render_final(
            views(words@).subrange(start as int, words@.len() as int),
            line_width as nat,
        ),
{
    let ghost ws = views(words@).subrange(start as int, words@.len() as int);
    let end = words.len();
    let count = end - start;
    let mut i: usize = 0;
    proof {
        assert(out@ + join_from(ws, 0) =~= old(out)@ + join_from(ws, 0));
    }
    while i < count
        invariant
            count == end - start,
            end == words@.len(),
            start < end,
            i <= count,
            ws == views(words@).subrange(start as int, end as int),
            out@ + join_from(ws, i as int) == old(out)@ + join_from(ws, 0),
        decreases count - i,
    {
        out.append(words[start + i].as_str());
        proof {
            assert(ws[i as int] == views(words@)[start + i as int]);
        }
        if i + 1 < count {
            out.append(" ");
            proof {
                reveal_strlit(" ");
                assert(" "@ =~= seq![' ']);
                assert(out@ + join_from(ws, i as int + 1) =~= old(out)@ + join_from(ws, 0));
            }
        } else {
            proof {
                assert(i == ws.len() - 1);
                assert(out@ + join_from(ws, i as int + 1) =~= old(out)@ + join_from(ws, 0));
            }
        }
        i = i + 1;
    }
    proof {
        crate::model::lemma_join_from_len(ws, 0);
        crate::model::lemma_words_size_subrange(
            views(words@),
            start as int,
            end as int,
        );
        assert(join_from(ws, count as int) =~= Seq::<char>::empty());
        assert(out@ =~= old(out)@ + join_from(ws, 0));
    }
    let used = line_length + (count - 1);
    let pad = if used <= line_width {
        line_width - used
    } else {
        0
    };
    push_spaces(out, pad);
    proof {
        assert(ws.subrange(0, ws.len() as int) =~= ws);
        assert(join_from(ws, 0).len() == used as nat);
        assert(pad as nat == pad_amount(line_width as nat, join_from(ws, 0).len()));
        assert(out@ =~= (old(out)@ + join_from(ws, 0)) + spaces(pad as nat));
        assert(out@ =~= old(out)@ + render_final(ws, line_width as nat));
    }
}

/// The greedy justification of `words` at `line_width`, exactly as
/// `justify_words_spec` states: words are packed onto a line while the
/// word characters plus one separator per word already placed fit within
/// `line_width`; each full line is flushed distributed-justified, and the
/// remaining words form the space-joined, padded final line.
pub fn justify_words(words: &Vec<String>, line_width: usize) -> (result: String)
    requires
        words_size(views(words@)) <= usize::MAX as nat + 1,
    ensures
        result@ == justify_words_spec(views(words@), line_width as nat),
{
    let ghost vws = views(words@);
    let mut result = String::new();
    let mut start: usize = 0;
    let mut line_length: usize = 0;
    let mut j: usize = 0;
    proof {
        assert(vws.take(0) =~= Seq::<Seq<char>>::empty());
        assert(vws.subrange(0, 0) =~= Seq::<Seq<char>>::empty());
        assert(sum_lens(Seq::<Seq<char>>::empty()) == 0);
    }
    while j < words.len()
        invariant
            vws == views(words@),
            words_size(vws) <= usize::MAX as nat + 1,
            j <= words@.len(),
            start <= j,
            line_length == sum_lens(vws.subrange(start as int, j as int)),
            wrap_state(vws.take(j as int), line_width as nat).0 == result@,
            wrap_state(vws.take(j as int), line_width as nat).1 == vws.subrange(
                start as int,
                j as int,
            ),
        decreases words@.len() - j,
    {
        let w_len = words[j].as_str().unicode_len();
        let count = j - start;
        proof {
            assert(vws[j as int] == words@[j as int]@);
            assert(vws.subrange(start as int, j as int + 1).drop_last() =~= vws.subrange(
                start as int,
                j as int,
            ));
            assert(vws.subrange(start as int, j as int + 1).last() == vws[j as int]);
            assert(sum_lens(vws.subrange(start as int, j as int + 1)) == line_length + w_len);
            crate::model::lemma_words_size_subrange(vws, start as int, j as int + 1);
            assert(vws.take(j as int + 1).drop_last() =~= vws.take(j as int));
            assert(vws.take(j as int + 1).last() == vws[j as int]);
        }
        if line_length + w_len + count > line_width {
            if count > 0 {
                render_line_into(&mut result, words, start, j, line_length, line_width);
                result.append("\n");
                proof {
                    reveal_strlit("\n");
                    assert("\n"@ =~= seq!['\n']);
                    assert(result@ =~= wrap_state(vws.take(j as int), line_width as nat).0
                        + render_line(vws.subrange(start as int, j as int), line_width as nat)
                        + seq!['\n']);
                }
            }
            start = j;
            line_length = 0;
        }
        proof {
            assert(vws.subrange(start as int, j as int + 1).drop_last() =~= vws.subrange(
                start as int,
                j as int,
            ));
            assert(vws.subrange(start as int, j as int + 1).last() == vws[j as int]);
            assert(vws.subrange(j as int, j as int) =~= Seq::<Seq<char>>::empty());
            assert(sum_lens(Seq::<Seq<char>>::empty()) == 0);
            assert(vws.subrange(start as int, j as int + 1) =~= vws.subrange(
                start as int,
                j as int,
            ).push(vws[j as int]));
        }
        line_length = line_length + w_len;
        j = j + 1;
    }
    proof {
        assert(vws.take(words@.len() as int) =~= vws);
    }
    if start < words.len() {
        render_final_into(&mut result, words, start, line_length, line_width);
        proof {
            assert(result@ =~= justify_words_spec(vws, line_width as nat));
        }
    } else {
        proof {
            assert(vws.subrange(start as int, start as int) =~= Seq::<Seq<char>>::empty());
            assert(result@ =~= justify_words_spec(vws, line_width as nat));
        }
    }
    result
}

impl JustifyTextExtension {
    /// Re-wraps `text` at `line_width`: the whitespace-separated words of
    /// `text`, greedily packed into lines, every full line padded to
    /// exactly `line_width` characters with the leftover spaces spread
    /// over its gaps (leftmost gaps first), and the final line joined with
    /// single spaces and right-padded to `line_width`.
    pub fn justify_text(&self, text: &str, line_width: usize) -> (result: String)
        ensures
            result@ == justify_spec(text@, line_width as nat),
    {
        let words = split_words(text);
        justify_words(&words, line_width)
    }
}

} // verus!
