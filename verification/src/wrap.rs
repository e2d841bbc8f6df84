use vstd::prelude::*;

use crate::row::{DisplayRow, RowModel};
use crate::unicode::{grapheme_count, grapheme_len};

verus! {

/// The index of the first occurrence of `c` in `s`, or `s.len()` when `s`
/// does not contain `c`.
pub open spec fn first_occurrence(s: Seq<char>, c: char) -> int
    decreases s.len(),
{
    if s.len() == 0 {
        0
    } else if s[0] == c {
        0
    } else {
        1 + first_occurrence(s.drop_first(), c)
    }
}

pub proof fn lemma_first_occurrence(s: Seq<char>, c: char)
    ensures
        0 <= first_occurrence(s, c) <= s.len(),
        first_occurrence(s, c) < s.len() ==> s[first_occurrence(s, c)] == c,
        forall|j: int| 0 <= j < first_occurrence(s, c) ==> s[j] != c,
    decreases s.len(),
{
    if s.len() == 0 {
    } else if s[0] == c {
    } else {
        lemma_first_occurrence(s.drop_first(), c);
        assert forall|j: int| 0 <= j < first_occurrence(s, c) implies s[j] != c by {
            if j > 0 {
                assert(s.drop_first()[j - 1] == s[j]);
            }
        }
    }
}

/// Where a scan has shown that `c` appears at `k` and nowhere earlier (or
/// nowhere at all when `k == s.len()`), `first_occurrence` agrees.
pub proof fn lemma_first_occurrence_is(s: Seq<char>, c: char, k: int)
    requires
        0 <= k <= s.len(),
        k < s.len() ==> s[k] == c,
        forall|j: int| 0 <= j < k ==> s[j] != c,
    ensures
        first_occurrence(s, c) == k,
    decreases s.len(),
{
    if s.len() == 0 {
    } else if k == 0 {
        if s.len() > 0 && s[0] != c {
            lemma_first_occurrence(s, c);
        }
    } else {
        assert(s[0] != c);
        assert forall|j: int| 0 <= j < k - 1 implies s.drop_first()[j] != c by {
            assert(s.drop_first()[j] == s[j + 1]);
        }
        assert(k - 1 < s.drop_first().len() ==> s.drop_first()[k - 1] == s[k]);
        lemma_first_occurrence_is(s.drop_first(), c, k - 1);
    }
}

/// One logical line as `str::lines` yields it: a single carriage return is
/// stripped from its end, since it belonged to a `\r\n` terminator.
pub open spec fn strip_cr(l: Seq<char>) -> Seq<char> {
    if l.len() > 0 && l.last() == '\r' {
        l.drop_last()
    } else {
        l
    }
}

/// The logical lines of a text, split at `\n` or `\r\n`; terminators are
/// consumed and a trailing terminator opens no further line.
pub open spec fn line_split(s: Seq<char>) -> Seq<Seq<char>>
    decreases s.len(),
{
    if s.len() == 0 {
        Seq::empty()
    } else {
        let i = first_occurrence(s, '\n');
        if 0 <= i < s.len() {
            seq![strip_cr(s.take(i))] + line_split(s.skip(i + 1))
        } else {
            seq![s]
        }
    }
}

/// The space-delimited chunks of one logical line, each chunk keeping its
/// trailing space, as `str::split_inclusive(' ')` yields them.
pub open spec fn chunk_split(l: Seq<char>) -> Seq<Seq<char>>
    decreases l.len(),
{
    if l.len() == 0 {
        Seq::empty()
    } else {
        let i = first_occurrence(l, ' ');
        if 0 <= i < l.len() {
            seq![l.take(i + 1)] + chunk_split(l.skip(i + 1))
        } else {
            seq![l]
        }
    }
}

/// Greedy packing of chunks into display rows: a chunk joins the open row
/// while the combined width stays under `width`; otherwise the open row is
/// closed and the chunk opens the next one. The open row is always emitted
/// at the end.
pub open spec fn pack_chunks(
    chunks: Seq<Seq<char>>,
    row: Seq<char>,
    row_len: nat,
    width: nat,
) -> Seq<RowModel>
    decreases chunks.len(),
{
    if chunks.len() == 0 {
        seq![RowModel { content: row, len: row_len }]
    } else {
        let cl = grapheme_len(chunks[0]);
        if row_len + cl < width {
            pack_chunks(chunks.drop_first(), row + chunks[0], row_len + cl, width)
        } else {
            seq![RowModel { content: row, len: row_len }] + pack_chunks(
                chunks.drop_first(),
                chunks[0],
                cl,
                width,
            )
        }
    }
}

/// The display rows of one logical line: a single row when its width (plus
/// the starting column) stays under `width`, otherwise its chunks packed
/// greedily starting from that column.
pub open spec fn wrap_line(start: nat, line: Seq<char>, width: nat) -> Seq<RowModel> {
    if grapheme_len(line) + start < width {
        seq![RowModel { content: line, len: grapheme_len(line) + start }]
    } else {
        pack_chunks(chunk_split(line), Seq::empty(), start, width)
    }
}

/// The display rows of a list of logical lines; the starting column applies
/// to the first line only.
pub open spec fn wrap_lines(lines: Seq<Seq<char>>, start: nat, width: nat) -> Seq<RowModel>
    decreases lines.len(),
{
    if lines.len() == 0 {
        Seq::empty()
    } else {
        wrap_line(start, lines[0], width) + wrap_lines(lines.drop_first(), 0, width)
    }
}

/// The display rows of a whole text: its logical lines, each wrapped.
pub open spec fn wrap_text(start: nat, text: Seq<char>, width: nat) -> Seq<RowModel> {
    wrap_lines(line_split(text), start, width)
}

/// The models of a sequence of display rows.
pub open spec fn row_models(rows: Seq<DisplayRow>) -> Seq<RowModel> {
    rows.map_values(|r: DisplayRow| r@)
}

pub proof fn lemma_row_models_push(rows: Seq<DisplayRow>, r: DisplayRow)
    ensures
        row_models(rows.push(r)) == row_models(rows).push(r@),
{
    assert(row_models(rows.push(r)) =~= row_models(rows).push(r@));
}

pub proof fn lemma_pack_chunks_nonempty(chunks: Seq<Seq<char>>, row: Seq<char>, row_len: nat, width: nat)
    ensures
        pack_chunks(chunks, row, row_len, width).len() >= 1,
    decreases chunks.len(),
{
    if chunks.len() > 0 {
        let cl = grapheme_len(chunks[0]);
        if row_len + cl < width {
            lemma_pack_chunks_nonempty(chunks.drop_first(), row + chunks[0], row_len + cl, width);
        } else {
            lemma_pack_chunks_nonempty(chunks.drop_first(), chunks[0], cl, width);
        }
    }
}

/// Every line produces at least one display row.
pub proof fn lemma_wrap_line_nonempty(start: nat, line: Seq<char>, width: nat)
    ensures
        wrap_line(start, line, width).len() >= 1,
{
    if !(grapheme_len(line) + start < width) {
        lemma_pack_chunks_nonempty(chunk_split(line), Seq::empty(), start, width);
    }
}

/// Wrapping the lines `lines.push(l)` wraps `lines` and then `l`, whose
/// starting column is the given one exactly when `l` is the first line.
pub proof fn lemma_wrap_lines_snoc(lines: Seq<Seq<char>>, l: Seq<char>, start: nat, width: nat)
    ensures
        wrap_lines(lines.push(l), start, width) == wrap_lines(lines, start, width) + wrap_line(
            if lines.len() == 0 { start } else { 0 },
            l,
            width,
        ),
    decreases lines.len(),
{
    if lines.len() == 0 {
        assert(lines.push(l).drop_first() =~= Seq::<Seq<char>>::empty());
        assert(lines.push(l)[0] == l);
        assert(wrap_lines(lines.push(l), start, width) == wrap_line(start, l, width)
            + wrap_lines(Seq::<Seq<char>>::empty(), 0, width));
        assert(wrap_lines(lines.push(l), start, width) =~= wrap_line(start, l, width));
        assert(wrap_lines(lines, start, width) + wrap_line(start, l, width) =~= wrap_line(
            start,
            l,
            width,
        ));
    } else {
        lemma_wrap_lines_snoc(lines.drop_first(), l, 0, width);
        assert(lines.push(l).drop_first() =~= lines.drop_first().push(l));
        assert(lines.push(l)[0] == lines[0]);
        assert(wrap_lines(lines.push(l), start, width) == wrap_line(start, lines[0], width)
            + (wrap_lines(lines.drop_first(), 0, width) + wrap_line(0, l, width)));
        assert(wrap_lines(lines.push(l), start, width) =~= wrap_lines(lines, start, width)
            + wrap_line(0, l, width));
    }
}

/// Wraps the single logical line `to_wrap[pos..le]`, whose first row is
/// `eff_start` columns wide already, appending its display rows.
#[verifier::loop_isolation(false)]
#[verifier::rlimit(60)]
fn wrap_line_into(
    to_wrap: &str,
    pos: usize,
    le: usize,
    eff_start: usize,
    max_width: usize,
    rows: &mut Vec<DisplayRow>,
)
    requires
        pos <= le <= to_wrap@.len(),
        eff_start + to_wrap@.len() <= usize::MAX,
    ensures
        row_models(final(rows)@) == row_models(old(rows)@) + wrap_line(
            eff_start as nat,
            to_wrap@.subrange(pos as int, le as int),
            max_width as nat,
        ),
        forall|k: int|
            old(rows)@.len() <= k < final(rows)@.len() ==> (#[trigger] final(rows)@[k]).len
                <= eff_start + (le - pos),
{
    let ghost w = max_width as nat;
    let ghost eff0 = eff_start as nat;
    let ghost line = to_wrap@.subrange(pos as int, le as int);
    let ghost base = row_models(rows@);
    let line_str = to_wrap.substring_char(pos, le);
    let g = grapheme_count(line_str);
    proof {
        assert(g <= line.len());
        assert(line.len() <= to_wrap@.len());
    }
    if g + eff_start < max_width {
        rows.push(DisplayRow { content: line_str.to_owned(), len: g + eff_start });
        proof {
            let r = RowModel { content: line, len: (g + eff_start) as nat };
            assert(wrap_line(eff0, line, w) == seq![r]);
            lemma_row_models_push(rows@.drop_last(), rows@.last());
            assert(rows@.drop_last().push(rows@.last()) =~= rows@);
            assert(row_models(rows@) =~= base + wrap_line(eff0, line, w));
        }
    } else {
        let mut cpos = pos;
        let mut row_start = pos;
        let mut row_len = eff_start;
        proof {
            assert(to_wrap@.subrange(cpos as int, le as int) == line);
            assert(to_wrap@.subrange(row_start as int, cpos as int) =~= Seq::<char>::empty());
            assert(pack_chunks(chunk_split(line), Seq::empty(), eff0, w) == wrap_line(
                eff0,
                line,
                w,
            ));
        }
        while cpos < le
            invariant
                pos <= row_start <= cpos <= le,
                row_len <= eff_start + (cpos - row_start),
                rows@.len() >= old(rows)@.len(),
                forall|k: int|
                    old(rows)@.len() <= k < rows@.len() ==> (#[trigger] rows@[k]).len <= eff_start
                        + (le - pos),
                row_models(rows@) + pack_chunks(
                    chunk_split(to_wrap@.subrange(cpos as int, le as int)),
                    to_wrap@.subrange(row_start as int, cpos as int),
                    row_len as nat,
                    w,
                ) == base + wrap_line(eff0, line, w),
            decreases le - cpos,
        {
                let mut sp = cpos;
                while sp < le && to_wrap.get_char(sp) != ' '
                    invariant
                        cpos <= sp <= le,
                        forall|j: int| cpos <= j < sp ==> to_wrap@[j] != ' ',
                    decreases le - sp,
                {
                    sp = sp + 1;
                }
                let ce = if sp < le {
                    sp + 1
                } else {
                    le
                };
                let ghost crem = to_wrap@.subrange(cpos as int, le as int);
                let ghost chunk = to_wrap@.subrange(cpos as int, ce as int);
                let ghost crest = to_wrap@.subrange(ce as int, le as int);
                proof {
                    assert forall|j: int| 0 <= j < sp - cpos implies crem[j] != ' ' by {
                        assert(crem[j] == to_wrap@[cpos + j]);
                    }
                    if sp < le {
                        assert(crem[sp - cpos] == to_wrap@[sp as int]);
                    }
                    lemma_first_occurrence_is(crem, ' ', sp as int - cpos as int);
                    if sp < le {
                        assert(crem.take(sp - cpos + 1) =~= chunk);
                        assert(crem.skip(sp - cpos + 1) =~= crest);
                        assert(chunk_split(crem) == seq![chunk] + chunk_split(crest));
                    } else {
                        assert(crem == chunk);
                        assert(crest =~= Seq::<char>::empty());
                        assert(chunk_split(crem) =~= seq![chunk] + chunk_split(crest));
                    }
                    assert((seq![chunk] + chunk_split(crest)).drop_first() =~= chunk_split(crest));
                    assert((seq![chunk] + chunk_split(crest))[0] == chunk);
                }
                let chunk_str = to_wrap.substring_char(cpos, ce);
                let cl = grapheme_count(chunk_str);
                if row_len < max_width && cl < max_width - row_len {
                    proof {
                        let acc = to_wrap@.subrange(row_start as int, cpos as int);
                        assert(pack_chunks(chunk_split(crem), acc, row_len as nat, w)
                            == pack_chunks(
                            chunk_split(crest),
                            acc + chunk,
                            row_len as nat + cl as nat,
                            w,
                        ));
                        assert(acc + chunk =~= to_wrap@.subrange(row_start as int, ce as int));
                    }
                    row_len = row_len + cl;
                } else {
                    let row_str = to_wrap.substring_char(row_start, cpos);
                    let ghost acc = to_wrap@.subrange(row_start as int, cpos as int);
                    let ghost old_models = row_models(rows@);
                    rows.push(DisplayRow { content: row_str.to_owned(), len: row_len });
                    proof {
                        let r = RowModel { content: acc, len: row_len as nat };
                        assert(row_len as nat + cl as nat >= w);
                        assert(pack_chunks(chunk_split(crem), acc, row_len as nat, w) == seq![r]
                            + pack_chunks(chunk_split(crest), chunk, cl as nat, w));
                        lemma_row_models_push(rows@.drop_last(), rows@.last());
                        assert(rows@.drop_last().push(rows@.last()) =~= rows@);
                        assert(row_models(rows@) == old_models.push(r));
                        assert(old_models.push(r) + pack_chunks(
                            chunk_split(crest),
                            chunk,
                            cl as nat,
                            w,
                        ) =~= old_models + pack_chunks(chunk_split(crem), acc, row_len as nat, w));
                    }
                    row_start = cpos;
                    row_len = cl;
                }
                cpos = ce;
            }
            let tail_str = to_wrap.substring_char(row_start, le);
            let ghost acc = to_wrap@.subrange(row_start as int, le as int);
            let ghost old_models = row_models(rows@);
            rows.push(DisplayRow { content: tail_str.to_owned(), len: row_len });
            proof {
                assert(to_wrap@.subrange(cpos as int, le as int) =~= Seq::<char>::empty());
                assert(chunk_split(to_wrap@.subrange(cpos as int, le as int))
                    == Seq::<Seq<char>>::empty());
                let r = RowModel { content: acc, len: row_len as nat };
                assert(pack_chunks(Seq::empty(), acc, row_len as nat, w) == seq![r]);
                lemma_row_models_push(rows@.drop_last(), rows@.last());
                assert(rows@.drop_last().push(rows@.last()) =~= rows@);
                assert(old_models.push(r) =~= old_models + seq![r]);
                assert(row_models(rows@) =~= base + wrap_line(eff0, line, w));
        }
    }
}

/// Wraps a text into display rows at the given terminal width. The first
/// row produced continues at column `start_len`, so a buffer's rows can
/// visually continue the committed file's last row. Pure: the result is a
/// function of the three arguments alone.
#[verifier::loop_isolation(false)]
#[verifier::rlimit(60)]
pub fn to_display_rows(start_len: usize, to_wrap: &str, max_width: usize) -> (rows: Vec<DisplayRow>)
    requires
        start_len + to_wrap@.len() <= usize::MAX,
    ensures
        row_models(rows@) == wrap_text(start_len as nat, to_wrap@, max_width as nat),
        forall|k: int|
            0 <= k < rows@.len() ==> (#[trigger] rows@[k]).len <= start_len + to_wrap@.len(),
{
    let n = to_wrap.unicode_len();
    let mut rows: Vec<DisplayRow> = Vec::new();
    let mut pos: usize = 0;
    let ghost w = max_width as nat;
    let ghost mut lines_done: Seq<Seq<char>> = Seq::empty();

    proof {
        assert(row_models(rows@) =~= wrap_lines(lines_done, start_len as nat, w));
        assert(to_wrap@.skip(0) =~= to_wrap@);
    }
    while pos < n
        invariant
            pos <= n,
            line_split(to_wrap@) == lines_done + line_split(to_wrap@.skip(pos as int)),
            row_models(rows@) == wrap_lines(lines_done, start_len as nat, w),
            rows@.len() == 0 <==> lines_done.len() == 0,
            forall|k: int| 0 <= k < rows@.len() ==> (#[trigger] rows@[k]).len <= start_len + n,
        decreases n - pos,
    {
        let mut e: usize = pos;
        while e < n && to_wrap.get_char(e) != '\n'
            invariant
                pos <= e <= n,
                forall|j: int| pos <= j < e ==> to_wrap@[j] != '\n',
            decreases n - e,
        {
            e = e + 1;
        }
        let has_nl = e < n;
        let le = if has_nl && e > pos && to_wrap.get_char(e - 1) == '\r' {
            e - 1
        } else {
            e
        };
        let ghost rem = to_wrap@.skip(pos as int);
        let ghost line = to_wrap@.subrange(pos as int, le as int);

        proof {
            assert forall|j: int| 0 <= j < e - pos implies rem[j] != '\n' by {
                assert(rem[j] == to_wrap@[pos + j]);
            }
            if has_nl {
                assert(rem[e - pos] == to_wrap@[e as int]);
            }
            lemma_first_occurrence_is(rem, '\n', e as int - pos as int);
            if has_nl {
                assert(rem.take(e as int - pos as int) =~= to_wrap@.subrange(
                    pos as int,
                    e as int,
                ));
                if le < e {
                    assert(to_wrap@.subrange(pos as int, e as int).last() == to_wrap@[e - 1]);
                    assert(strip_cr(rem.take(e as int - pos as int)) =~= line);
                } else {
                    if e > pos {
                        assert(to_wrap@.subrange(pos as int, e as int).last() == to_wrap@[e - 1]);
                    }
                    assert(strip_cr(rem.take(e as int - pos as int)) =~= line);
                }
            } else {
                assert(rem =~= line);
            }
        }
        let eff_start = if rows.len() == 0 {
            start_len
        } else {
            0
        };
        let ghost base = row_models(rows@);
        let ghost prev = rows@;
        wrap_line_into(to_wrap, pos, le, eff_start, max_width, &mut rows);
        proof {
            lemma_wrap_lines_snoc(lines_done, line, start_len as nat, w);
            lemma_wrap_line_nonempty(eff_start as nat, line, w);
            assert(row_models(rows@).len() == rows@.len());
            assert forall|k: int| 0 <= k < rows@.len() implies (#[trigger] rows@[k]).len
                <= start_len + n by {
                if k < prev.len() {
                    assert(row_models(rows@)[k] == row_models(prev)[k]);
                    assert(row_models(prev)[k] == prev[k]@);
                    assert(row_models(rows@)[k] == rows@[k]@);
                    assert(prev[k].len <= start_len + n);
                } else {
                    assert(rows@[k].len <= eff_start + (le - pos));
                }
            }
            let i = e as int - pos as int;
            if has_nl {
                assert(rem.skip(i + 1) =~= to_wrap@.skip(e as int + 1));
                assert(line_split(rem) == seq![line] + line_split(to_wrap@.skip(e as int + 1)));
                assert(lines_done + (seq![line] + line_split(to_wrap@.skip(e as int + 1)))
                    =~= lines_done.push(line) + line_split(to_wrap@.skip(e as int + 1)));
            } else {
                assert(line_split(rem) == seq![line]);
                assert(to_wrap@.skip(n as int) =~= Seq::<char>::empty());
                assert(lines_done + seq![line] =~= lines_done.push(line) + line_split(
                    to_wrap@.skip(n as int),
                ));
            }
            lines_done = lines_done.push(line);
        }
        pos = if has_nl {
            e + 1
        } else {
            n
        };
    }
    proof {
        assert(to_wrap@.skip(n as int) =~= Seq::<char>::empty());
        assert(line_split(to_wrap@) =~= lines_done);
    }
    rows
}

/// A nonempty text always wraps to at least one display row.
pub proof fn lemma_wrap_text_nonempty(start: nat, text: Seq<char>, width: nat)
    requires
        text.len() > 0,
    ensures
        wrap_text(start, text, width).len() >= 1,
{
    lemma_line_split_len(text);
    let lines = line_split(text);
    lemma_wrap_line_nonempty(start, lines[0], width);
}

/// The concatenation of a list of texts.
pub open spec fn seqs_concat(ss: Seq<Seq<char>>) -> Seq<char>
    decreases ss.len(),
{
    if ss.len() == 0 {
        Seq::empty()
    } else {
        ss[0] + seqs_concat(ss.drop_first())
    }
}

/// The concatenation of the contents of a list of display rows.
pub open spec fn rows_concat(rows: Seq<RowModel>) -> Seq<char>
    decreases rows.len(),
{
    if rows.len() == 0 {
        Seq::empty()
    } else {
        rows[0].content + rows_concat(rows.drop_first())
    }
}

/// A text that `split_inclusive(' ')` would yield whole: nonempty, with no
/// space anywhere but possibly at its very end.
pub open spec fn is_chunk(s: Seq<char>) -> bool {
    s.len() > 0 && forall|j: int| 0 <= j < s.len() - 1 ==> s[j] != ' '
}

pub proof fn lemma_seqs_concat_cons(x: Seq<char>, rest: Seq<Seq<char>>)
    ensures
        seqs_concat(seq![x] + rest) == x + seqs_concat(rest),
{
    assert((seq![x] + rest).drop_first() =~= rest);
    assert((seq![x] + rest)[0] == x);
    assert((seq![x] + rest).len() > 0);
}

pub proof fn lemma_chunk_split_concat(l: Seq<char>)
    ensures
        seqs_concat(chunk_split(l)) == l,
    decreases l.len(),
{
    if l.len() == 0 {
        assert(seqs_concat(chunk_split(l)) =~= l);
    } else {
        let i = first_occurrence(l, ' ');
        lemma_first_occurrence(l, ' ');
        if i < l.len() {
            lemma_chunk_split_concat(l.skip(i + 1));
            lemma_seqs_concat_cons(l.take(i + 1), chunk_split(l.skip(i + 1)));
            assert(l.take(i + 1) + l.skip(i + 1) =~= l);
        } else {
            assert(chunk_split(l) == seq![l]);
            assert(seq![l].drop_first() =~= Seq::<Seq<char>>::empty());
            assert(seqs_concat(seq![l]) == l + seqs_concat(Seq::<Seq<char>>::empty()));
            assert(l + Seq::<char>::empty() =~= l);
        }
    }
}

pub proof fn lemma_rows_concat_cons(r: RowModel, rest: Seq<RowModel>)
    ensures
        rows_concat(seq![r] + rest) == r.content + rows_concat(rest),
{
    assert((seq![r] + rest).drop_first() =~= rest);
    assert((seq![r] + rest)[0] == r);
    assert((seq![r] + rest).len() > 0);
}

pub proof fn lemma_pack_chunks_concat(chunks: Seq<Seq<char>>, row: Seq<char>, row_len: nat, width: nat)
    ensures
        rows_concat(pack_chunks(chunks, row, row_len, width)) == row + seqs_concat(chunks),
    decreases chunks.len(),
{
    if chunks.len() == 0 {
        let r = RowModel { content: row, len: row_len };
        assert(pack_chunks(chunks, row, row_len, width) == seq![r]);
        assert(seq![r].drop_first() =~= Seq::<RowModel>::empty());
        assert(rows_concat(seq![r]) == row + rows_concat(Seq::<RowModel>::empty()));
        assert(row + Seq::<char>::empty() =~= row + seqs_concat(chunks));
    } else {
        let cl = grapheme_len(chunks[0]);
        assert(seqs_concat(chunks) == chunks[0] + seqs_concat(chunks.drop_first()));
        if row_len + cl < width {
            lemma_pack_chunks_concat(chunks.drop_first(), row + chunks[0], row_len + cl, width);
            assert(pack_chunks(chunks, row, row_len, width) == pack_chunks(
                chunks.drop_first(),
                row + chunks[0],
                row_len + cl,
                width,
            ));
            assert((row + chunks[0]) + seqs_concat(chunks.drop_first()) =~= row + seqs_concat(
                chunks,
            ));
        } else {
            lemma_pack_chunks_concat(chunks.drop_first(), chunks[0], cl, width);
            lemma_rows_concat_cons(
                RowModel { content: row, len: row_len },
                pack_chunks(chunks.drop_first(), chunks[0], cl, width),
            );
            assert(row + (chunks[0] + seqs_concat(chunks.drop_first())) =~= row + seqs_concat(
                chunks,
            ));
        }
    }
}

/// No text is lost or duplicated by wrapping: concatenating the contents of
/// the rows that one logical line produces gives back that line exactly,
/// whatever the width and starting column.
pub proof fn lemma_wrap_line_reproduces(start: nat, line: Seq<char>, width: nat)
    ensures
        rows_concat(wrap_line(start, line, width)) == line,
{
    if grapheme_len(line) + start < width {
        let r = RowModel { content: line, len: grapheme_len(line) + start };
        assert(wrap_line(start, line, width) == seq![r]);
        assert(seq![r].drop_first() =~= Seq::<RowModel>::empty());
        assert(rows_concat(seq![r]) == line + rows_concat(Seq::<RowModel>::empty()));
        assert(line + Seq::<char>::empty() =~= line);
    } else {
        lemma_pack_chunks_concat(chunk_split(line), Seq::empty(), start, width);
        lemma_chunk_split_concat(line);
        assert(Seq::<char>::empty() + line =~= line);
    }
}

/// The lines of a text, rejoined with a newline between them, give back the
/// text, up to the single trailing newline the splitter consumed. Stated
/// for texts without carriage returns, where no `\r\n` stripping interferes.
pub open spec fn join_lines(lines: Seq<Seq<char>>) -> Seq<char>
    decreases lines.len(),
{
    if lines.len() == 0 {
        Seq::empty()
    } else if lines.len() == 1 {
        lines[0]
    } else {
        lines[0] + seq!['\n'] + join_lines(lines.drop_first())
    }
}

pub proof fn lemma_line_split_len(s: Seq<char>)
    ensures
        line_split(s).len() == 0 <==> s.len() == 0,
{
    if s.len() > 0 {
        lemma_first_occurrence(s, '\n');
    }
}

/// Splitting a carriage-return-free text into lines loses exactly one
/// trailing newline, when there is one, and nothing else.
pub proof fn lemma_line_split_join(s: Seq<char>)
    requires
        forall|j: int| 0 <= j < s.len() ==> s[j] != '\r',
    ensures
        join_lines(line_split(s)) == if s.len() > 0 && s.last() == '\n' {
            s.drop_last()
        } else {
            s
        },
    decreases s.len(),
{
    if s.len() == 0 {
    } else {
        let i = first_occurrence(s, '\n');
        lemma_first_occurrence(s, '\n');
        if i < s.len() {
            let rest = s.skip(i + 1);
            let head = s.take(i);
            assert(strip_cr(head) == head) by {
                if head.len() > 0 {
                    assert(head.last() == s[i - 1]);
                }
            }
            assert forall|j: int| 0 <= j < rest.len() implies rest[j] != '\r' by {
                assert(rest[j] == s[i + 1 + j]);
            }
            lemma_line_split_join(rest);
            lemma_line_split_len(rest);
            let split = line_split(s);
            assert(split == seq![head] + line_split(rest));
            if rest.len() == 0 {
                assert(split =~= seq![head]);
                assert(join_lines(split) == head);
                assert(s.last() == s[i]);
                assert(head =~= s.drop_last());
            } else {
                assert(line_split(rest).len() >= 1);
                assert(split.len() >= 2);
                assert(split[0] == head);
                assert(split.drop_first() =~= line_split(rest));
                assert(join_lines(split) == head + seq!['\n'] + join_lines(line_split(rest)));
                assert(rest.last() == s[s.len() - 1]);
                if s.last() == '\n' {
                    assert(join_lines(line_split(rest)) == rest.drop_last());
                    assert(head + seq!['\n'] + rest.drop_last() =~= s.drop_last());
                } else {
                    assert(join_lines(line_split(rest)) == rest);
                    assert(head + seq!['\n'] + rest =~= s);
                }
            }
        }
    }
}

/// Wrap correctness, put together: split a carriage-return-free text into
/// its logical lines, wrap each line at any width and starting column,
/// concatenate each line's rows, and rejoin the lines with newlines — the
/// original text comes back, up to the one trailing newline the splitter
/// consumed. No character is lost or duplicated by wrapping.
pub proof fn lemma_wrap_text_reproduces(start: nat, text: Seq<char>, width: nat)
    requires
        forall|j: int| 0 <= j < text.len() ==> text[j] != '\r',
    ensures
        join_lines(
            line_split(text).map_values(|l: Seq<char>| rows_concat(wrap_line(start, l, width))),
        ) == if text.len() > 0 && text.last() == '\n' {
            text.drop_last()
        } else {
            text
        },
{
    let lines = line_split(text);
    let mapped = lines.map_values(|l: Seq<char>| rows_concat(wrap_line(start, l, width)));
    assert forall|k: int| 0 <= k < lines.len() implies mapped[k] == lines[k] by {
        lemma_wrap_line_reproduces(start, lines[k], width);
    }
    assert(mapped =~= lines);
    lemma_line_split_join(text);
}

pub proof fn lemma_chunk_split_chunks(l: Seq<char>)
    ensures
        forall|k: int| 0 <= k < chunk_split(l).len() ==> is_chunk(#[trigger] chunk_split(l)[k]),
    decreases l.len(),
{
    if l.len() > 0 {
        let i = first_occurrence(l, ' ');
        lemma_first_occurrence(l, ' ');
        if i < l.len() {
            lemma_chunk_split_chunks(l.skip(i + 1));
            assert forall|k: int| 0 <= k < chunk_split(l).len() implies is_chunk(
                #[trigger] chunk_split(l)[k],
            ) by {
                if k == 0 {
                    assert(chunk_split(l)[0] == l.take(i + 1));
                    assert forall|j: int| 0 <= j < l.take(i + 1).len() - 1 implies #[trigger] l.take(
                        i + 1,
                    )[j] != ' ' by {
                        assert(l.take(i + 1)[j] == l[j]);
                    }
                } else {
                    assert(chunk_split(l)[k] == chunk_split(l.skip(i + 1))[k - 1]);
                }
            }
        } else {
            assert forall|k: int| 0 <= k < chunk_split(l).len() implies is_chunk(
                #[trigger] chunk_split(l)[k],
            ) by {
                assert(chunk_split(l)[0] == l);
            }
        }
    }
}

pub proof fn lemma_pack_chunks_fit(chunks: Seq<Seq<char>>, row: Seq<char>, row_len: nat, width: nat)
    requires
        row_len < width || (is_chunk(row) && row_len == grapheme_len(row)),
        forall|k: int| 0 <= k < chunks.len() ==> is_chunk(#[trigger] chunks[k]),
    ensures
        forall|k: int| 0 <= k < pack_chunks(chunks, row, row_len, width).len() ==> {
            let r = #[trigger] pack_chunks(chunks, row, row_len, width)[k];
            r.len < width || (is_chunk(r.content) && r.len == grapheme_len(r.content))
        },
    decreases chunks.len(),
{
    if chunks.len() == 0 {
    } else {
        let cl = grapheme_len(chunks[0]);
        assert(is_chunk(chunks[0]));
        assert forall|k: int| 0 <= k < chunks.drop_first().len() implies is_chunk(
            #[trigger] chunks.drop_first()[k],
        ) by {
            assert(chunks.drop_first()[k] == chunks[k + 1]);
        }
        if row_len + cl < width {
            lemma_pack_chunks_fit(chunks.drop_first(), row + chunks[0], row_len + cl, width);
            assert(pack_chunks(chunks, row, row_len, width) == pack_chunks(
                chunks.drop_first(),
                row + chunks[0],
                row_len + cl,
                width,
            ));
            assert forall|k: int| 0 <= k < pack_chunks(chunks, row, row_len, width).len() implies {
                let r = #[trigger] pack_chunks(chunks, row, row_len, width)[k];
                r.len < width || (is_chunk(r.content) && r.len == grapheme_len(r.content))
            } by {
                let tail = pack_chunks(chunks.drop_first(), row + chunks[0], row_len + cl, width);
                assert(pack_chunks(chunks, row, row_len, width)[k] == tail[k]);
            }
        } else {
            lemma_pack_chunks_fit(chunks.drop_first(), chunks[0], cl, width);
            assert forall|k: int| 0 <= k < pack_chunks(chunks, row, row_len, width).len() implies {
                let r = #[trigger] pack_chunks(chunks, row, row_len, width)[k];
                r.len < width || (is_chunk(r.content) && r.len == grapheme_len(r.content))
            } by {
                let tail = pack_chunks(chunks.drop_first(), chunks[0], cl, width);
                if k > 0 {
                    assert(pack_chunks(chunks, row, row_len, width)[k] == tail[k - 1]);
                }
            }
        }
    }
}

pub proof fn lemma_wrap_line_fit(start: nat, line: Seq<char>, width: nat)
    requires
        start < width,
    ensures
        forall|k: int| 0 <= k < wrap_line(start, line, width).len() ==> {
            let r = #[trigger] wrap_line(start, line, width)[k];
            r.len < width || (is_chunk(r.content) && r.len == grapheme_len(r.content))
        },
{
    if !(grapheme_len(line) + start < width) {
        lemma_chunk_split_chunks(line);
        lemma_pack_chunks_fit(chunk_split(line), Seq::empty(), start, width);
    }
}

pub proof fn lemma_wrap_lines_fit(lines: Seq<Seq<char>>, start: nat, width: nat)
    requires
        start < width,
    ensures
        forall|k: int| 0 <= k < wrap_lines(lines, start, width).len() ==> {
            let r = #[trigger] wrap_lines(lines, start, width)[k];
            r.len < width || (is_chunk(r.content) && r.len == grapheme_len(r.content))
        },
    decreases lines.len(),
{
    if lines.len() > 0 {
        lemma_wrap_line_fit(start, lines[0], width);
        lemma_wrap_lines_fit(lines.drop_first(), 0, width);
        assert forall|k: int| 0 <= k < wrap_lines(lines, start, width).len() implies {
            let r = #[trigger] wrap_lines(lines, start, width)[k];
            r.len < width || (is_chunk(r.content) && r.len == grapheme_len(r.content))
        } by {
            let head = wrap_line(start, lines[0], width);
            if k >= head.len() {
                assert(wrap_lines(lines, start, width)[k] == wrap_lines(
                    lines.drop_first(),
                    0,
                    width,
                )[k - head.len()]);
            }
        }
    }
}

/// Every display row of a wrapped text stays strictly under the terminal
/// width, except a row holding a single unsplittable chunk, whose width is
/// that chunk's own grapheme count.
pub proof fn lemma_wrap_rows_fit(start: nat, text: Seq<char>, width: nat)
    requires
        start < width,
    ensures
        forall|k: int| 0 <= k < wrap_text(start, text, width).len() ==> {
            let r = #[trigger] wrap_text(start, text, width)[k];
            r.len < width || (is_chunk(r.content) && r.len == grapheme_len(r.content))
        },
{
    lemma_wrap_lines_fit(line_split(text), start, width);
}

} // verus!
