use vstd::prelude::*;

use crate::append_buffer::AppendBuffer;
use crate::metadata::Metadata;
use crate::position::Position;
use crate::row::{DisplayRow, RowModel};
use crate::strutil::{pop_char, push_char};
use crate::unicode::{find_word_start, tally, tally_words, unicode_word_start};
use crate::wrap::{lemma_row_models_push, row_models, to_display_rows, wrap_text};
use vstd::string::StringExecFns;

verus! {

/// A pair of lifetime counters for a text: how many words and how many
/// characters it holds.
#[derive(Clone, Copy, PartialEq, Eq, Structural, Debug)]
pub struct Counts {
    pub words: usize,
    pub characters: usize,
}

/// Why a save fired: the word threshold was reached, the idle timer ran
/// out, or the user asked for it.
#[derive(PartialEq, Eq, Structural, Clone, Copy, Debug)]
pub enum SaveType {
    Words,
    Time,
    Manual,
}

/// The largest text length the document handles: half the address space.
/// A Rust string never holds more than `isize::MAX` bytes, and a character
/// takes at least one byte, so real texts stay below this.
pub const MAX_TEXT_LEN: usize = usize::MAX / 2;

/// A text with a single trailing line terminator stripped: one `\n`, and
/// the `\r` before it when the terminator was `\r\n`.
pub open spec fn strip_newline(s: Seq<char>) -> Seq<char> {
    if s.len() > 0 && s.last() == '\n' {
        let t = s.drop_last();
        if t.len() > 0 && t.last() == '\r' {
            t.drop_last()
        } else {
            t
        }
    } else {
        s
    }
}

/// A text with a final newline appended when it does not end in one.
pub open spec fn with_final_newline(s: Seq<char>) -> Seq<char> {
    if s.len() > 0 && s.last() == '\n' {
        s
    } else {
        s.push('\n')
    }
}

/// How a save splits the append buffer: with a word threshold above one,
/// everything before the start of the word numbered `words - 1` moves to
/// the committed content and the rest stays in the buffer; otherwise the
/// whole (nonempty) buffer is committed.
pub open spec fn commit_split(content: Seq<char>, buffer: Seq<char>, words: u8) -> (Seq<
    char,
>, Seq<char>) {
    if words > 1 {
        match unicode_word_start(buffer, words - 1) {
            Some(i) => if 0 <= i <= buffer.len() {
                (content + buffer.take(i), buffer.skip(i))
            } else {
                (content, buffer)
            },
            None => (content, buffer),
        }
    } else if buffer.len() > 0 {
        (content + buffer, Seq::empty())
    } else {
        (content, buffer)
    }
}

/// The text a renderer prints for a row: every tab becomes two spaces,
/// every other character stands as it is.
pub open spec fn rendered(s: Seq<char>) -> Seq<char>
    decreases s.len(),
{
    if s.len() == 0 {
        Seq::empty()
    } else {
        (if s[0] == '\t' {
            seq![' ', ' ']
        } else {
            seq![s[0]]
        }) + rendered(s.drop_first())
    }
}

pub proof fn lemma_rendered_snoc(s: Seq<char>, c: char)
    ensures
        rendered(s.push(c)) == rendered(s) + (if c == '\t' {
            seq![' ', ' ']
        } else {
            seq![c]
        }),
    decreases s.len(),
{
    let img = if c == '\t' {
        seq![' ', ' ']
    } else {
        seq![c]
    };
    if s.len() == 0 {
        assert(s.push(c)[0] == c);
        assert(s.push(c).drop_first() =~= Seq::<char>::empty());
        assert(rendered(s.push(c)) == img + rendered(Seq::<char>::empty()));
        assert(img + Seq::<char>::empty() =~= rendered(s) + img);
    } else {
        lemma_rendered_snoc(s.drop_first(), c);
        assert(s.push(c)[0] == s[0]);
        assert(s.push(c).drop_first() =~= s.drop_first().push(c));
        let img0 = if s[0] == '\t' {
            seq![' ', ' ']
        } else {
            seq![s[0]]
        };
        assert(rendered(s.push(c)) == img0 + (rendered(s.drop_first()) + img));
        assert(img0 + (rendered(s.drop_first()) + img) =~= (img0 + rendered(s.drop_first()))
            + img);
    }
}

/// Expands every tab of a row to two spaces for printing.
#[verifier::loop_isolation(false)]
pub fn render(to_render: &str) -> (r: String)
    ensures
        r@ == rendered(to_render@),
{
    let n = to_render.unicode_len();
    let mut out = String::new();
    let mut i: usize = 0;
    proof {
        assert(to_render@.take(0) =~= Seq::<char>::empty());
    }
    while i < n
        invariant
            i <= n,
            out@ == rendered(to_render@.take(i as int)),
        decreases n - i,
    {
        let c = to_render.get_char(i);
        proof {
            assert(to_render@.take(i + 1) =~= to_render@.take(i as int).push(to_render@[i as int]));
            lemma_rendered_snoc(to_render@.take(i as int), to_render@[i as int]);
        }
        if c == '\t' {
            push_char(&mut out, ' ');
            push_char(&mut out, ' ');
            proof {
                assert(out@ =~= rendered(to_render@.take(i + 1)));
            }
        } else {
            push_char(&mut out, c);
            proof {
                assert(out@ =~= rendered(to_render@.take(i + 1)));
            }
        }
        i = i + 1;
    }
    proof {
        assert(to_render@.take(n as int) =~= to_render@);
    }
    out
}

/// The quit-time fix-up: leaves the text ending with exactly one final
/// newline, appending one only when it is missing. Idempotent.
pub fn append_newline(text: &mut String)
    ensures
        final(text)@ == with_final_newline(old(text)@),
{
    let n = text.as_str().unicode_len();
    if n == 0 || text.as_str().get_char(n - 1) != '\n' {
        push_char(text, '\n');
    }
}

/// Appending the final newline a second time changes nothing: the file is
/// byte-identical after the second call.
pub proof fn lemma_append_newline_idempotent(s: Seq<char>)
    ensures
        with_final_newline(with_final_newline(s)) == with_final_newline(s),
{
    assert(with_final_newline(s).last() == '\n');
}

/// What a saved file reads back as: saving writes the content verbatim and
/// the quit fix-up appends one newline; opening strips one trailing
/// terminator. For in-memory content that does not itself end in a line
/// terminator — the common case, since opening normalizes it so — both
/// disk forms read back as exactly the content that was saved.
pub proof fn lemma_save_open_round_trip(content: Seq<char>)
    requires
        content.len() == 0 || (content.last() != '\n' && content.last() != '\r'),
    ensures
        strip_newline(content) == content,
        strip_newline(with_final_newline(content)) == content,
{
    let w = with_final_newline(content);
    assert(w == content.push('\n'));
    assert(w.last() == '\n');
    assert(w.drop_last() =~= content);
}

/// The committed file content, the uncommitted append buffer, and the
/// reflowed display rows of both, addressable as one continuous sequence
/// through the buffer's join position.
pub struct Document {
    pub metadata: Metadata,
    pub content: String,
    pub file_drows: Vec<DisplayRow>,
    pub append_buffer: AppendBuffer,
    pub buf_drows: Vec<DisplayRow>,
    pub count: Counts,
    pub start_count: Counts,
    pub width: usize,
}

impl Document {
    /// The machine limits the document's texts stay under: the two texts
    /// together fit well inside the address space, and the join column
    /// does too.
    pub open spec fn wf(self) -> bool {
        &&& self.content@.len() + self.append_buffer.buffer@.len() <= MAX_TEXT_LEN as int
        &&& self.append_buffer.join_pos.x <= MAX_TEXT_LEN
    }

    /// What `wrap_file` establishes: the file's display rows are the
    /// wrapped content — plus one empty row preserving a trailing blank
    /// line — and the join position names the row and column where the
    /// buffer's rendering continues.
    pub open spec fn file_wrapped(self) -> bool {
        let rows = wrap_text(0, self.content@, self.width as nat);
        if self.content@.len() > 0 && self.content@.last() == '\n' {
            &&& row_models(self.file_drows@) == rows.push(
                RowModel { content: Seq::empty(), len: 0 },
            )
            &&& self.append_buffer.join_pos.x == 0
            &&& self.append_buffer.join_pos.y as int == rows.len()
        } else if rows.len() > 0 {
            &&& row_models(self.file_drows@) == rows
            &&& self.append_buffer.join_pos.x as nat == rows.last().len
            &&& self.append_buffer.join_pos.y as int == rows.len() - 1
        } else {
            self.file_drows@.len() == 0
        }
    }

    /// What `wrap_buffer` establishes: the buffer's display rows are the
    /// buffer wrapped from the join column, plus one empty row preserving
    /// a trailing blank line.
    pub open spec fn buffer_wrapped(self) -> bool {
        let rows = wrap_text(
            self.append_buffer.join_pos.x as nat,
            self.append_buffer.buffer@,
            self.width as nat,
        );
        row_models(self.buf_drows@) == if self.append_buffer.buffer@.len() > 0
            && self.append_buffer.buffer@.last() == '\n' {
            rows.push(RowModel { content: Seq::empty(), len: 0 })
        } else {
            rows
        }
    }

    /// Opens a document at a terminal width: `raw` is the file's text
    /// where it could be read, `None` where the file does not exist yet.
    /// One trailing line terminator is stripped, and the initial tallies
    /// are snapshotted as the session's starting counts.
    pub fn open(metadata: Metadata, raw: Option<String>, width: usize) -> (doc: Document)
        requires
            raw matches Some(s) ==> s@.len() <= MAX_TEXT_LEN as int,
        ensures
            doc.wf(),
            doc.metadata == metadata,
            doc.content@ == match raw {
                Some(s) => strip_newline(s@),
                None => Seq::<char>::empty(),
            },
            raw is None ==> doc.count.words == 0 && doc.count.characters == 0,
            raw matches Some(s) ==> doc.count.words as nat == tally_words(s@)
                && doc.count.characters as nat == s@.len(),
            doc.start_count == doc.count,
            doc.append_buffer.buffer@ == Seq::<char>::empty(),
            doc.append_buffer.word_count == 0,
            doc.append_buffer.join_pos == (Position { x: 0, y: 0 }),
            doc.file_drows@.len() == 0,
            doc.buf_drows@.len() == 0,
            doc.width == width,
    {
        let ghost raw_view = raw;
        let mut content = match raw {
            Some(s) => s,
            None => String::new(),
        };
        let count = tally(content.as_str());
        let n = content.as_str().unicode_len();
        if n > 0 && content.as_str().get_char(n - 1) == '\n' {
            pop_char(&mut content);
            if n > 1 && content.as_str().get_char(n - 2) == '\r' {
                pop_char(&mut content);
            }
        }
        proof {
            match raw_view {
                Some(s) => {
                    assert(content@ == strip_newline(s@));
                },
                None => {
                    assert(content@ == strip_newline(Seq::<char>::empty()));
                },
            }
        }
        Document {
            metadata,
            content,
            file_drows: Vec::new(),
            append_buffer: AppendBuffer::new(),
            buf_drows: Vec::new(),
            count,
            start_count: count,
            width,
        }
    }

    /// Reflows the whole committed content into display rows and records
    /// where the buffer's rows will continue: after the last row's final
    /// column, or on a fresh empty row when the content ends with a
    /// newline, whose trailing blank line the line splitter would
    /// otherwise swallow.
    pub fn wrap_file(&mut self)
        requires
            old(self).wf(),
        ensures
            final(self).wf(),
            final(self).file_wrapped(),
            final(self).content == old(self).content,
            final(self).append_buffer.buffer == old(self).append_buffer.buffer,
            final(self).append_buffer.word_count == old(self).append_buffer.word_count,
            final(self).buf_drows == old(self).buf_drows,
            final(self).count == old(self).count,
            final(self).start_count == old(self).start_count,
            final(self).metadata == old(self).metadata,
            final(self).width == old(self).width,
            old(self).content@.len() == 0 ==> final(self).append_buffer.join_pos == old(
                self,
            ).append_buffer.join_pos,
    {
        let rows = to_display_rows(0, self.content.as_str(), self.width);
        self.file_drows = rows;
        let m = self.file_drows.len();
        let n = self.content.as_str().unicode_len();
        if n > 0 && self.content.as_str().get_char(n - 1) == '\n' {
            self.append_buffer.join_pos = Position { x: 0, y: m };
            let ghost before = self.file_drows@;
            self.file_drows.push(DisplayRow { content: String::new(), len: 0 });
            proof {
                lemma_row_models_push(before, self.file_drows@.last());
                assert(before.push(self.file_drows@.last()) =~= self.file_drows@);
            }
        } else if m > 0 {
            let last_len = self.file_drows[m - 1].len;
            self.append_buffer.join_pos = Position { x: last_len, y: m - 1 };
            proof {
                assert(row_models(self.file_drows@)[m - 1] == self.file_drows@[m - 1]@);
                assert(row_models(self.file_drows@).last() == row_models(self.file_drows@)[m - 1]);
            }
        } else {
            proof {
                assert(row_models(self.file_drows@) =~= wrap_text(
                    0,
                    self.content@,
                    self.width as nat,
                ));
            }
        }
    }

    /// Reflows the append buffer from the join column, adding one empty
    /// display row when the buffer ends with a newline so the trailing
    /// blank line is not swallowed.
    pub fn wrap_buffer(&mut self)
        requires
            old(self).wf(),
        ensures
            final(self).wf(),
            final(self).buffer_wrapped(),
            final(self).content == old(self).content,
            final(self).append_buffer == old(self).append_buffer,
            final(self).file_drows == old(self).file_drows,
            final(self).count == old(self).count,
            final(self).start_count == old(self).start_count,
            final(self).metadata == old(self).metadata,
            final(self).width == old(self).width,
    {
        let start = self.append_buffer.join_pos.x;
        let rows = to_display_rows(start, self.append_buffer.buffer.as_str(), self.width);
        self.buf_drows = rows;
        let n = self.append_buffer.buffer.as_str().unicode_len();
        if n > 0 && self.append_buffer.buffer.as_str().get_char(n - 1) == '\n' {
            let ghost before = self.buf_drows@;
            self.buf_drows.push(DisplayRow { content: String::new(), len: 0 });
            proof {
                lemma_row_models_push(before, self.buf_drows@.last());
                assert(before.push(self.buf_drows@.last()) =~= self.buf_drows@);
            }
        }
    }

    /// Appends one character to the buffer and reflows the buffer's rows.
    pub fn insert(&mut self, c: char)
        requires
            old(self).wf(),
            old(self).content@.len() + old(self).append_buffer.buffer@.len() < MAX_TEXT_LEN
                as int,
        ensures
            final(self).wf(),
            final(self).buffer_wrapped(),
            final(self).append_buffer.buffer@ == old(self).append_buffer.buffer@.push(c),
            final(self).append_buffer.join_pos == old(self).append_buffer.join_pos,
            final(self).append_buffer.word_count == old(self).append_buffer.word_count,
            final(self).content == old(self).content,
            final(self).file_drows == old(self).file_drows,
            final(self).count == old(self).count,
            final(self).start_count == old(self).start_count,
            final(self).metadata == old(self).metadata,
            final(self).width == old(self).width,
    {
        self.append_buffer.insert(c);
        self.wrap_buffer();
    }

    /// Removes the buffer's last character — a no-op on an empty buffer —
    /// and reflows the buffer's rows.
    pub fn delete(&mut self)
        requires
            old(self).wf(),
        ensures
            final(self).wf(),
            final(self).buffer_wrapped(),
            old(self).append_buffer.buffer@.len() == 0 ==> final(self).append_buffer.buffer@
                == old(self).append_buffer.buffer@,
            old(self).append_buffer.buffer@.len() > 0 ==> final(self).append_buffer.buffer@
                == old(self).append_buffer.buffer@.drop_last(),
            final(self).append_buffer.join_pos == old(self).append_buffer.join_pos,
            final(self).append_buffer.word_count == old(self).append_buffer.word_count,
            final(self).content == old(self).content,
            final(self).file_drows == old(self).file_drows,
            final(self).count == old(self).count,
            final(self).start_count == old(self).start_count,
            final(self).metadata == old(self).metadata,
            final(self).width == old(self).width,
    {
        self.append_buffer.delete();
        self.wrap_buffer();
    }

    /// Moves text from the append buffer into the committed content as a
    /// save's first step — splitting at a word boundary when the word
    /// threshold is above one, else committing everything — and recomputes
    /// the lifetime tallies over the new content. The caller reflows and
    /// persists afterwards.
    pub fn commit_buffer(&mut self, words: u8)
        requires
            old(self).wf(),
        ensures
            final(self).wf(),
            (final(self).content@, final(self).append_buffer.buffer@) == commit_split(
                old(self).content@,
                old(self).append_buffer.buffer@,
                words,
            ),
            final(self).count.words as nat == tally_words(final(self).content@),
            final(self).count.characters as nat == final(self).content@.len(),
            final(self).append_buffer.join_pos == old(self).append_buffer.join_pos,
            final(self).append_buffer.word_count == old(self).append_buffer.word_count,
            final(self).file_drows == old(self).file_drows,
            final(self).buf_drows == old(self).buf_drows,
            final(self).start_count == old(self).start_count,
            final(self).metadata == old(self).metadata,
            final(self).width == old(self).width,
    {
        let ghost old_content = self.content@;
        let ghost old_buffer = self.append_buffer.buffer@;
        if words > 1 {
            let r = find_word_start(self.append_buffer.buffer.as_str(), (words - 1) as usize);
            if let Some(i) = r {
                let blen = self.append_buffer.buffer.as_str().unicode_len();
                let to_save = self.append_buffer.buffer.as_str().substring_char(0, i);
                let remainder = self.append_buffer.buffer.as_str().substring_char(i, blen)
                    .to_owned();
                self.content.append(to_save);
                self.append_buffer.buffer = remainder;
                proof {
                    assert(old_buffer.take(i as int) + old_buffer.skip(i as int) =~= old_buffer);
                }
            }
        } else if !self.append_buffer.buffer.as_str().is_empty() {
            let whole = self.append_buffer.buffer.as_str().to_owned();
            self.content.append(whole.as_str());
            self.append_buffer.buffer = String::new();
        }
        self.count = tally(self.content.as_str());
    }

    /// How many display rows the document addresses: file rows and buffer
    /// rows, the fused join row counted once.
    pub open spec fn spec_display_len(self) -> int {
        if self.buf_drows@.len() <= 1 {
            self.file_drows@.len() as int
        } else {
            self.file_drows@.len() + self.buf_drows@.len() - 1
        }
    }

    /// The total number of addressable display rows.
    pub fn display_len(&self) -> (len: usize)
        requires
            self.file_drows@.len() + self.buf_drows@.len() <= usize::MAX,
        ensures
            len as int == self.spec_display_len(),
    {
        let b = self.buf_drows.len();
        if b <= 1 {
            return self.file_drows.len();
        }
        self.file_drows.len() + (b - 1)
    }

    /// Which file row and which buffer row the given display index shows:
    /// indices before the join row are file rows alone, the join row fuses
    /// the file's last partial row with the buffer's first, and indices
    /// past it are buffer rows offset by the one fused row.
    pub open spec fn display_row_spec(self, index: int) -> (Option<DisplayRow>, Option<
        DisplayRow,
    >) {
        let j = self.append_buffer.join_pos.y as int;
        let fc = self.file_drows@.len() as int;
        let bi = if index >= fc {
            index - fc
        } else {
            0
        };
        if index < j {
            (self.file_row_at(index), None::<DisplayRow>)
        } else if index > j {
            (None::<DisplayRow>, self.buf_row_at(bi + 1))
        } else {
            (self.file_row_at(index), self.buf_row_at(bi))
        }
    }

    pub open spec fn file_row_at(self, i: int) -> Option<DisplayRow> {
        if 0 <= i < self.file_drows@.len() {
            Some(self.file_drows@[i])
        } else {
            None
        }
    }

    pub open spec fn buf_row_at(self, i: int) -> Option<DisplayRow> {
        if 0 <= i < self.buf_drows@.len() {
            Some(self.buf_drows@[i])
        } else {
            None
        }
    }

    /// Resolves one display index to its file row, its buffer row, or the
    /// fused pair at the join.
    pub fn get_display_row(&self, index: usize) -> (r: (Option<&DisplayRow>, Option<&DisplayRow>))
        ensures
            (match r.0 {
                Some(d) => self.display_row_spec(index as int).0 == Some(*d),
                None => self.display_row_spec(index as int).0 is None,
            }),
            (match r.1 {
                Some(d) => self.display_row_spec(index as int).1 == Some(*d),
                None => self.display_row_spec(index as int).1 is None,
            }),
    {
        let join_index = self.append_buffer.join_pos.y;
        let file_drow_count = self.file_drows.len();
        let buf_index_from_index = if index >= file_drow_count {
            index - file_drow_count
        } else {
            0
        };
        let file_drow = if index < file_drow_count {
            Some(&self.file_drows[index])
        } else {
            None
        };
        if index < join_index {
            (file_drow, None)
        } else if index > join_index {
            let next = if buf_index_from_index < usize::MAX {
                buf_index_from_index + 1
            } else {
                buf_index_from_index
            };
            if next < self.buf_drows.len() {
                (None, Some(&self.buf_drows[next]))
            } else {
                (None, None)
            }
        } else {
            if buf_index_from_index < self.buf_drows.len() {
                (file_drow, Some(&self.buf_drows[buf_index_from_index]))
            } else {
                (file_drow, None)
            }
        }
    }

    /// The words and characters written this session: the lifetime tallies
    /// less the snapshot taken at open, never negative.
    pub fn written_this_session(&self) -> (c: Counts)
        ensures
            c.words as int == if self.count.words >= self.start_count.words {
                self.count.words - self.start_count.words
            } else {
                0
            },
            c.characters as int == if self.count.characters >= self.start_count.characters {
                self.count.characters - self.start_count.characters
            } else {
                0
            },
    {
        let words_written = if self.count.words >= self.start_count.words {
            self.count.words - self.start_count.words
        } else {
            0
        };
        let chars_written = if self.count.characters >= self.start_count.characters {
            self.count.characters - self.start_count.characters
        } else {
            0
        };
        Counts { words: words_written, characters: chars_written }
    }
}

/// The row-addressing invariant: after a full reflow of a document with
/// committed rows and a nonempty buffer, the display indices form one
/// gap-free sequence — file rows alone before the join, the file's last
/// row fused with the buffer's first at the join, and the remaining
/// buffer rows after it, each row addressed exactly once.
pub proof fn lemma_display_rows_gap_free(doc: Document)
    requires
        doc.file_wrapped(),
        doc.buffer_wrapped(),
        doc.append_buffer.buffer@.len() > 0,
        doc.file_drows@.len() > 0,
    ensures
        doc.append_buffer.join_pos.y as int == doc.file_drows@.len() - 1,
        forall|i: int|
            0 <= i < doc.append_buffer.join_pos.y as int ==> #[trigger] doc.display_row_spec(i)
                == (Some(doc.file_drows@[i]), None::<DisplayRow>),
        doc.display_row_spec(doc.append_buffer.join_pos.y as int) == (
            Some(doc.file_drows@.last()),
            Some(doc.buf_drows@[0]),
        ),
        forall|i: int|
            (doc.append_buffer.join_pos.y as int) < i < doc.spec_display_len()
                ==> #[trigger] doc.display_row_spec(i) == (
                None::<DisplayRow>,
                Some(doc.buf_drows@[i - doc.append_buffer.join_pos.y as int]),
            ),
        doc.spec_display_len() == doc.append_buffer.join_pos.y + doc.buf_drows@.len(),
{
    let j = doc.append_buffer.join_pos.y as int;
    let fc = doc.file_drows@.len() as int;
    let bc = doc.buf_drows@.len() as int;
    let rows = wrap_text(0, doc.content@, doc.width as nat);
    crate::wrap::lemma_wrap_text_nonempty(
        doc.append_buffer.join_pos.x as nat,
        doc.append_buffer.buffer@,
        doc.width as nat,
    );
    assert(row_models(doc.buf_drows@).len() == doc.buf_drows@.len());
    assert(bc >= 1);
    assert(row_models(doc.file_drows@).len() == doc.file_drows@.len());
    if doc.content@.len() > 0 && doc.content@.last() == '\n' {
        assert(fc == rows.len() + 1);
        assert(j == fc - 1);
    } else if rows.len() > 0 {
        assert(fc == rows.len());
        assert(j == fc - 1);
    }
    assert forall|i: int| j < i < doc.spec_display_len() implies #[trigger] doc.display_row_spec(i)
        == (None::<DisplayRow>, Some(doc.buf_drows@[i - j])) by {
        assert(i >= fc);
        assert(i - fc + 1 == i - j);
        assert(1 <= i - j < bc);
    }
}

/// The load-bearing join-position law: after a full reflow of file and
/// buffer, the display row at the join position carries a buffer
/// component, and a file component exactly when the file has display
/// rows. For a file with no rows — whose join position has never moved
/// off the origin — the buffer alone shows there.
pub proof fn lemma_join_row_resolves(doc: Document)
    requires
        doc.file_wrapped(),
        doc.buffer_wrapped(),
        doc.append_buffer.buffer@.len() > 0,
        doc.file_drows@.len() == 0 ==> doc.append_buffer.join_pos.y == 0,
    ensures
        doc.display_row_spec(doc.append_buffer.join_pos.y as int).1 is Some,
        doc.file_drows@.len() > 0 ==> doc.display_row_spec(
            doc.append_buffer.join_pos.y as int,
        ).0 is Some,
        doc.file_drows@.len() == 0 ==> doc.display_row_spec(
            doc.append_buffer.join_pos.y as int,
        ).0 is None,
{
    let j = doc.append_buffer.join_pos.y as int;
    let fc = doc.file_drows@.len() as int;
    let rows = wrap_text(0, doc.content@, doc.width as nat);
    crate::wrap::lemma_wrap_text_nonempty(
        doc.append_buffer.join_pos.x as nat,
        doc.append_buffer.buffer@,
        doc.width as nat,
    );
    assert(row_models(doc.buf_drows@).len() == doc.buf_drows@.len());
    assert(doc.buf_drows@.len() >= 1);
    if doc.content@.len() > 0 && doc.content@.last() == '\n' {
        assert(row_models(doc.file_drows@).len() == doc.file_drows@.len());
        assert(fc == rows.len() + 1);
        assert(j == fc - 1);
    } else if rows.len() > 0 {
        assert(row_models(doc.file_drows@).len() == doc.file_drows@.len());
        assert(fc == rows.len());
        assert(j == fc - 1);
    } else {
        assert(fc == 0);
        assert(j == 0);
    }
}

} // verus!
