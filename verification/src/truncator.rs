//! Output truncation: keep the head and tail of a long text and replace the
//! middle with a one-line marker naming how many lines were hidden.
use vstd::prelude::*;
use crate::text::{split_on_char, split_char, joined_sep, join_with, to_decimal, dec_digits,
    lemma_split_char_len};

verus! {

/// One split part with the carriage return of a `\r\n` ending removed.
pub open spec fn strip_cr(l: Seq<char>) -> Seq<char> {
    if l.len() > 0 && l.last() == '\r' {
        l.drop_last()
    } else {
        l
    }
}

/// The lines of a text: split at newlines, `\r\n` endings treated like
/// newlines, and no phantom empty line after a final newline.
pub open spec fn lines_of(s: Seq<char>) -> Seq<Seq<char>> {
    let parts = split_char(s, '\n');
    let fixed = Seq::new(
        parts.len(),
        |i: int|
            if i < parts.len() - 1 {
                strip_cr(parts[i])
            } else {
                parts[i]
            },
    );
    if fixed.len() > 0 && fixed.last().len() == 0 {
        fixed.drop_last()
    } else {
        fixed
    }
}

/// Split a text into lines.
pub fn split_lines(s: &str) -> (r: Vec<String>)
    ensures
        r.deep_view() == lines_of(s@),
{
    let parts = split_on_char(s, '\n');
    let ghost pdv = parts.deep_view();
    let mut fixed: Vec<String> = Vec::new();
    let mut i: usize = 0;
    while i < parts.len()
        invariant
            i <= parts.len(),
            pdv == parts.deep_view(),
            pdv.len() == parts@.len(),
            fixed@.len() == i,
            forall|m: int|
                0 <= m < i ==> fixed.deep_view()[m] == (if m < pdv.len() - 1 {
                    strip_cr(#[trigger] pdv[m])
                } else {
                    pdv[m]
                }),
        decreases parts.len() - i,
    {
        let part = &parts[i];
        let ghost prev = fixed.deep_view();
        if i + 1 < parts.len() {
            let plen = part.as_str().unicode_len();
            if plen > 0 && part.as_str().get_char(plen - 1) == '\r' {
                let stripped = part.as_str().substring_char(0, plen - 1);
                let ghost sv = stripped@;
                fixed.push(stripped.to_owned());
                proof {
                    assert(pdv[i as int].drop_last() =~= sv);
                    assert(fixed.deep_view() =~= prev.push(strip_cr(pdv[i as int])));
                }
            } else {
                fixed.push(part.clone());
                proof {
                    assert(fixed.deep_view() =~= prev.push(strip_cr(pdv[i as int])));
                }
            }
        } else {
            fixed.push(part.clone());
            proof {
                assert(fixed.deep_view() =~= prev.push(pdv[i as int]));
            }
        }
        i += 1;
    }
    proof {
        lemma_split_char_len(s@, '\n');
    }
    let flen = fixed.len();
    if flen > 0 && fixed[flen - 1].as_str().is_empty() {
        let ghost prev = fixed.deep_view();
        fixed.pop();
        proof {
            assert(fixed.deep_view() =~= prev.drop_last());
            assert(fixed.deep_view() =~= lines_of(s@));
        }
    } else {
        proof {
            assert(fixed.deep_view() =~= lines_of(s@));
        }
    }
    fixed
}

/// What `auto_tail` returns: the text itself where it has no more than
/// `head + tail` lines; otherwise the first `head` lines, a marker naming
/// the number of hidden lines, and the last `tail` lines.
pub open spec fn auto_tail_spec(content: Seq<char>, head: int, tail: int) -> Seq<char> {
    let ls = lines_of(content);
    if ls.len() <= head + tail {
        content
    } else {
        joined_sep(ls.take(head), '\n') + "\n\n<... "@ + dec_digits((ls.len() - head - tail) as nat)
            + " lines truncated ...>\n\n"@ + joined_sep(ls.skip(ls.len() - tail), '\n')
    }
}

/// Truncate a long text to its first `head_lines` and last `tail_lines`
/// lines with a marker between them naming the hidden line count; a text
/// short enough is returned unchanged.
pub fn auto_tail(content: &str, head_lines: usize, tail_lines: usize) -> (r: String)
    ensures
        r@ == auto_tail_spec(content@, head_lines as int, tail_lines as int),
{
    let lines = split_lines(content);
    let ghost ls = lines.deep_view();
    let total = lines.len();
    if head_lines >= total || tail_lines >= total - head_lines {
        return content.to_owned();
    }
    let hidden = total - head_lines - tail_lines;

    let mut head: Vec<String> = Vec::new();
    let mut m: usize = 0;
    while m < head_lines
        invariant
            m <= head_lines,
            head_lines < total,
            ls == lines.deep_view(),
            total == lines@.len(),
            head@.len() == m,
            forall|k: int| 0 <= k < m ==> head.deep_view()[k] == #[trigger] ls[k],
        decreases head_lines - m,
    {
        let ghost prev = head.deep_view();
        head.push(lines[m].clone());
        proof {
            assert(head.deep_view() =~= prev.push(ls[m as int]));
        }
        m += 1;
    }
    proof {
        assert(head.deep_view() =~= ls.take(head_lines as int));
    }

    let mut tail: Vec<String> = Vec::new();
    let mut m2: usize = total - tail_lines;
    while m2 < total
        invariant
            total - tail_lines <= m2 <= total,
            ls == lines.deep_view(),
            total == lines@.len(),
            tail_lines < total,
            tail@.len() == m2 - (total - tail_lines),
            forall|k: int|
                total - tail_lines <= k < m2 ==> tail.deep_view()[k - (total - tail_lines)]
                    == #[trigger] ls[k],
        decreases total - m2,
    {
        let ghost prev = tail.deep_view();
        tail.push(lines[m2].clone());
        proof {
            assert(tail.deep_view() =~= prev.push(ls[m2 as int]));
        }
        m2 += 1;
    }
    proof {
        assert(tail.deep_view() =~= ls.skip(total - tail_lines));
    }

    proof {
        reveal_strlit("\n");
    }
    let mut out = join_with(&head, "\n");
    out.append("\n\n<... ");
    let digits = to_decimal(hidden as u64);
    out.append(digits.as_str());
    out.append(" lines truncated ...>\n\n");
    let tail_str = join_with(&tail, "\n");
    out.append(tail_str.as_str());
    proof {
        assert(out@ =~= auto_tail_spec(content@, head_lines as int, tail_lines as int));
    }
    out
}

/// Summarise a long text to about `max_lines` lines: keep its start and
/// end, half each.
pub fn smart_summary(content: &str, max_lines: usize) -> (r: String)
    ensures
        r@ == auto_tail_spec(content@, (max_lines / 2) as int, (max_lines / 2) as int),
{
    auto_tail(content, max_lines / 2, max_lines / 2)
}

} // verus!
