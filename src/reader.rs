use vstd::prelude::*;

verus! {

/// The byte that ends a line.
pub const NEWLINE: u8 = 10;

/// Where a batch that starts at `start` ends, scanning from `i`: just after the
/// first line end at which at least `threshold` bytes have gathered, else at
/// the end of the content.
pub open spec fn cut_from(content: Seq<u8>, start: int, i: int, threshold: int) -> int
    decreases content.len() - i,
{
    if i >= content.len() {
        content.len() as int
    } else if (content[i] == NEWLINE || i + 1 == content.len()) && i + 1 - start >= threshold {
        i + 1
    } else {
        cut_from(content, start, i + 1, threshold)
    }
}

/// End of the batch that starts at `start`.
pub open spec fn batch_end(content: Seq<u8>, start: int, threshold: int) -> int {
    cut_from(content, start, start, threshold)
}

/// The batches into which the content of one file is cut from offset `off` on.
pub open spec fn file_batches(content: Seq<u8>, off: int, threshold: int) -> Seq<Seq<u8>>
    decreases content.len() - off,
{
    if off < 0 || off >= content.len() {
        Seq::empty()
    } else {
        let e = batch_end(content, off, threshold);
        if e <= off || e > content.len() {
            Seq::empty()
        } else {
            seq![content.subrange(off, e)] + file_batches(content, e, threshold)
        }
    }
}

/// The batches that a reader still owes from cursor `(fi, off)` on: the rest of
/// file `fi`, then every later file from its start.
pub open spec fn remaining_batches(files: Seq<Seq<u8>>, fi: int, off: int, threshold: int) -> Seq<
    Seq<u8>,
>
    decreases files.len() - fi,
{
    if fi < 0 || fi >= files.len() {
        Seq::empty()
    } else {
        file_batches(files[fi], off, threshold) + remaining_batches(files, fi + 1, 0, threshold)
    }
}

proof fn lemma_cut_from_bounds(content: Seq<u8>, start: int, i: int, threshold: int)
    requires
        start <= i <= content.len(),
    ensures
        i < cut_from(content, start, i, threshold) <= content.len() || (i == content.len()
            && cut_from(content, start, i, threshold) == content.len()),
        cut_from(content, start, i, threshold) < content.len() ==> content[cut_from(
            content,
            start,
            i,
            threshold,
        ) - 1] == NEWLINE,
        cut_from(content, start, i, threshold) - start < threshold ==> cut_from(
            content,
            start,
            i,
            threshold,
        ) == content.len(),
    decreases content.len() - i,
{
    if i < content.len() {
        if (content[i] == NEWLINE || i + 1 == content.len()) && i + 1 - start >= threshold {
        } else {
            lemma_cut_from_bounds(content, start, i + 1, threshold);
        }
    }
}

/// Concatenating the batches of a file, from any offset on, gives back the
/// file's bytes from that offset byte for byte.
pub proof fn lemma_batches_rebuild_file(content: Seq<u8>, off: int, threshold: int)
    requires
        0 <= off <= content.len(),
    ensures
        file_batches(content, off, threshold).flatten() == content.subrange(off, content.len() as int),
    decreases content.len() - off,
{
    if off < content.len() {
        let e = batch_end(content, off, threshold);
        lemma_cut_from_bounds(content, off, off, threshold);
        lemma_batches_rebuild_file(content, e, threshold);
        let bs = file_batches(content, off, threshold);
        assert(bs.first() == content.subrange(off, e));
        assert(bs.drop_first() == file_batches(content, e, threshold));
        assert(content.subrange(off, e) + content.subrange(e, content.len() as int)
            == content.subrange(off, content.len() as int));
    } else {
        assert(content.subrange(off, content.len() as int) == Seq::<u8>::empty());
    }
}

/// No batch splits a line: every batch but the last of a file ends with a line
/// end.
pub proof fn lemma_batches_whole_lines(content: Seq<u8>, off: int, threshold: int, k: int)
    requires
        0 <= off <= content.len(),
        0 <= k < file_batches(content, off, threshold).len() - 1,
    ensures
        file_batches(content, off, threshold)[k].last() == NEWLINE,
    decreases content.len() - off,
{
    let e = batch_end(content, off, threshold);
    lemma_cut_from_bounds(content, off, off, threshold);
    if e < content.len() {
        if k > 0 {
            lemma_batches_whole_lines(content, e, threshold, k - 1);
        }
    } else {
        assert(file_batches(content, e, threshold).len() == 0);
    }
}

/// Position of a reader: the file it is in and the byte offset within that file.
#[derive(Clone, Copy, PartialEq, Eq, Debug)]
pub struct ReaderCursor {
    pub file_index: usize,
    pub byte_offset: usize,
}

/// Cuts the next batch of `content` at offset `start`: the bytes up to the first
/// line end at which `threshold` bytes have gathered, or to the end.
/// Returns the batch and the offset where it ends; nothing at the end of the content.
pub fn next_batch(content: &Vec<u8>, start: usize, threshold: usize) -> (r: Option<(Vec<u8>, usize)>)
    requires
        start <= content@.len(),
    ensures
        r is None <==> start == content@.len(),
        r matches Some((batch, end)) ==> end == batch_end(content@, start as int, threshold as int)
            && batch@ == content@.subrange(start as int, end as int),
{
    if start == content.len() {
        return None;
    }
    let mut i: usize = start;
    let mut batch: Vec<u8> = Vec::new();
    while i < content.len()
        invariant
            start <= i <= content@.len(),
            start < content@.len(),
            batch@ == content@.subrange(start as int, i as int),
            batch_end(content@, start as int, threshold as int) == cut_from(
                content@,
                start as int,
                i as int,
                threshold as int,
            ),
        decreases content@.len() - i,
    {
        let c = content[i];
        batch.push(c);
        proof {
            assert(batch@ == content@.subrange(start as int, i + 1));
        }
        if (c == NEWLINE || i + 1 == content.len()) && i + 1 - start >= threshold {
            return Some((batch, i + 1));
        }
        i += 1;
    }
    Some((batch, i))
}

/// The batches that one reader step hands out: none or one.
pub open spec fn emitted(b: Option<Seq<u8>>) -> Seq<Seq<u8>> {
    match b {
        Some(x) => seq![x],
        None => Seq::empty(),
    }
}

/// One reader step on the file `content` at cursor `(fi, off)`: the batch it
/// hands out, if any, and the cursor after it. A batch that reached the
/// threshold leaves the cursor just after it; a batch closed early at the end of
/// the file, or an exhausted file, moves the cursor to the start of the next file.
pub open spec fn step_spec(content: Seq<u8>, fi: int, off: int, threshold: int) -> (
    Option<Seq<u8>>,
    int,
    int,
) {
    if off >= content.len() {
        (None, fi + 1, 0)
    } else {
        let e = batch_end(content, off, threshold);
        if e - off >= threshold {
            (Some(content.subrange(off, e)), fi, e)
        } else {
            (Some(content.subrange(off, e)), fi + 1, 0)
        }
    }
}

/// `k` reader steps from cursor `(fi, off)` over `files`: the batches handed
/// out, in order, and the cursor reached. Steps past the last file do nothing.
pub open spec fn run_steps(files: Seq<Seq<u8>>, fi: int, off: int, threshold: int, k: nat) -> (
    Seq<Seq<u8>>,
    int,
    int,
)
    decreases k,
{
    if k == 0 {
        (Seq::empty(), fi, off)
    } else {
        let (done, fi1, off1) = run_steps(files, fi, off, threshold, (k - 1) as nat);
        if 0 <= fi1 < files.len() {
            let (b, fi2, off2) = step_spec(files[fi1], fi1, off1, threshold);
            (done + emitted(b), fi2, off2)
        } else {
            (done, fi1, off1)
        }
    }
}

/// One step hands out exactly the first batch still owed; what is owed after it
/// is the rest.
pub proof fn lemma_step_resumes(files: Seq<Seq<u8>>, fi: int, off: int, threshold: int)
    requires
        0 <= fi < files.len(),
        0 <= off <= files[fi].len(),
    ensures
        ({
            let (b, fi2, off2) = step_spec(files[fi], fi, off, threshold);
            &&& remaining_batches(files, fi, off, threshold) == emitted(b) + remaining_batches(
                files,
                fi2,
                off2,
                threshold,
            )
            &&& fi2 == fi || fi2 == fi + 1
            &&& 0 <= off2
            &&& fi2 < files.len() ==> off2 <= files[fi2].len()
        }),
{
    let c = files[fi];
    if off < c.len() {
        let e = batch_end(c, off, threshold);
        lemma_cut_from_bounds(c, off, off, threshold);
        let rest = remaining_batches(files, fi + 1, 0, threshold);
        assert(file_batches(c, off, threshold) == seq![c.subrange(off, e)] + file_batches(
            c,
            e,
            threshold,
        ));
        if e - off < threshold {
            assert(e == c.len());
            assert(file_batches(c, e, threshold) == Seq::<Seq<u8>>::empty());
            assert(remaining_batches(files, fi, off, threshold) == seq![c.subrange(off, e)] + rest);
        } else {
            assert(seq![c.subrange(off, e)] + file_batches(c, e, threshold) + rest == seq![
                c.subrange(off, e),
            ] + (file_batches(c, e, threshold) + rest));
        }
    } else {
        assert(file_batches(c, off, threshold) == Seq::<Seq<u8>>::empty());
        assert(remaining_batches(files, fi, off, threshold) == remaining_batches(
            files,
            fi + 1,
            0,
            threshold,
        ));
    }
}

/// Resuming from a checkpoint loses and repeats nothing: whatever cursor `k`
/// steps from the start reach, the batches handed out so far followed by those
/// owed from that cursor are exactly the batches of an uninterrupted run.
pub proof fn lemma_checkpoint_resume(files: Seq<Seq<u8>>, threshold: int, k: nat)
    ensures
        ({
            let (done, fi, off) = run_steps(files, 0, 0, threshold, k);
            &&& done + remaining_batches(files, fi, off, threshold) == remaining_batches(
                files,
                0,
                0,
                threshold,
            )
            &&& 0 <= fi
            &&& 0 <= off
            &&& fi < files.len() ==> off <= files[fi].len()
        }),
    decreases k,
{
    if k > 0 {
        lemma_checkpoint_resume(files, threshold, (k - 1) as nat);
        let (done, fi1, off1) = run_steps(files, 0, 0, threshold, (k - 1) as nat);
        if 0 <= fi1 < files.len() {
            lemma_step_resumes(files, fi1, off1, threshold);
            let (b, fi2, off2) = step_spec(files[fi1], fi1, off1, threshold);
            assert(done + emitted(b) + remaining_batches(files, fi2, off2, threshold) == done + (
            emitted(b) + remaining_batches(files, fi2, off2, threshold)));
        }
    } else {
        assert(Seq::<Seq<u8>>::empty() + remaining_batches(files, 0, 0, threshold)
            == remaining_batches(files, 0, 0, threshold));
    }
}

/// A reader worker: its own list of files and its cursor over them.
pub struct ReaderWorker {
    files: Vec<String>,
    cursor: ReaderCursor,
}

impl ReaderWorker {
    /// A reader at the start of its first file.
    pub fn new(files: Vec<String>) -> (r: Self)
        ensures
            r.files()@ == files@,
            r.cursor() == (ReaderCursor { file_index: 0, byte_offset: 0 }),
    {
        ReaderWorker { files, cursor: ReaderCursor { file_index: 0, byte_offset: 0 } }
    }

    /// A reader that resumes from a saved cursor.
    pub fn resume(files: Vec<String>, cursor: ReaderCursor) -> (r: Self)
        ensures
            r.files()@ == files@,
            r.cursor() == cursor,
    {
        ReaderWorker { files, cursor }
    }

    pub closed spec fn files(&self) -> Vec<String> {
        self.files
    }

    pub closed spec fn cursor(&self) -> ReaderCursor {
        self.cursor
    }

    /// The files of this reader, in reading order.
    pub fn file_names(&self) -> (r: &Vec<String>)
        ensures
            r == self.files(),
    {
        &self.files
    }

    /// The reader's cursor, to be saved in a checkpoint.
    pub fn position(&self) -> (r: ReaderCursor)
        ensures
            r == self.cursor(),
    {
        self.cursor
    }

    /// Whether every file has been read; a finished reader stays finished.
    pub fn is_finished(&self) -> (r: bool)
        ensures
            r == (self.cursor().file_index >= self.files()@.len()),
    {
        self.cursor.file_index >= self.files.len()
    }

    /// One step over `content`, the bytes of the current file: hands out the
    /// next batch, if any, and moves the cursor as `step_spec` says.
    pub fn step(&mut self, content: &Vec<u8>, threshold: usize) -> (r: Option<Vec<u8>>)
        requires
            old(self).cursor().file_index < old(self).files()@.len(),
            old(self).cursor().byte_offset <= content@.len(),
        ensures
            final(self).files() == old(self).files(),
            ({
                let (b, fi, off) = step_spec(
                    content@,
                    old(self).cursor().file_index as int,
                    old(self).cursor().byte_offset as int,
                    threshold as int,
                );
                &&& b == (match r {
                    Some(v) => Some(v@),
                    None => None::<Seq<u8>>,
                })
                &&& final(self).cursor().file_index == fi
                &&& final(self).cursor().byte_offset == off
            }),
    {
        let fi = self.cursor.file_index;
        let file_count = self.files.len();
        assert(fi < file_count);
        match next_batch(content, self.cursor.byte_offset, threshold) {
            None => {
                self.cursor = ReaderCursor { file_index: fi + 1, byte_offset: 0 };
                None
            },
            Some((batch, end)) => {
                proof {
                    lemma_cut_from_bounds(
                        content@,
                        self.cursor.byte_offset as int,
                        self.cursor.byte_offset as int,
                        threshold as int,
                    );
                }
                if end - self.cursor.byte_offset >= threshold {
                    self.cursor = ReaderCursor { file_index: fi, byte_offset: end };
                } else {
                    self.cursor = ReaderCursor { file_index: fi + 1, byte_offset: 0 };
                }
                Some(batch)
            },
        }
    }
}

} // verus!
