//! A snapshot as one stream of bytes: its files one after the other.

use crate::checksum::crc32_of;
use crate::v2::files::{CfFile, Snap};
use crate::v2::meta::total_of;
use crate::v2::save::as_recorded;
use vstd::prelude::*;
use vstd::slice::slice_subrange;

verus! {

/// Contents one after the other.
pub open spec fn stream(contents: Seq<Seq<u8>>) -> Seq<u8>
    decreases contents.len(),
{
    if contents.len() == 0 {
        Seq::empty()
    } else {
        stream(contents.drop_last()) + contents.last()
    }
}

/// What was written to files.
pub open spec fn written_contents(files: Seq<CfFile>) -> Seq<Seq<u8>> {
    files.map_values(|file: CfFile| file.written@)
}

/// How many bytes a file still takes.
pub open spec fn room(file: CfFile) -> int {
    file.size - file.written_size
}

/// A file after more bytes were written to it.
pub open spec fn filled(file: CfFile, data: Seq<u8>) -> CfFile {
    CfFile {
        written_size: (file.written_size + data.len()) as u64,
        written: Ghost(file.written@ + data),
        ..file
    }
}

/// How many bytes of a buffer a file takes: as many as it has room for.
pub open spec fn share(file: CfFile, len: nat) -> int {
    if len <= room(file) {
        len as int
    } else {
        room(file)
    }
}

/// Files after a whole buffer was written: each takes what it has room for, and leaves the rest to
/// the next.
pub open spec fn after_write(files: Seq<CfFile>, buf: Seq<u8>) -> Seq<CfFile>
    decreases files.len(),
{
    if files.len() == 0 {
        files
    } else {
        let count = share(files[0], buf.len());
        seq![filled(files[0], buf.take(count))] + after_write(files.drop_first(), buf.skip(count))
    }
}

/// How many bytes of a buffer files take.
pub open spec fn accepted(files: Seq<CfFile>, len: nat) -> int {
    let left = total_of(files) - stream(written_contents(files)).len();
    if len <= left {
        len as int
    } else {
        left
    }
}

/// A put of these bytes to this file succeeded.
pub open spec fn put_took<E, F: Fn(usize, &[u8]) -> core::result::Result<(), E>>(
    put: F,
    file: usize,
    data: &[u8],
) -> bool {
    exists|taken: core::result::Result<(), E>| #[trigger]
        put.ensures((file, data), taken) && taken is Ok
}

/// All puts of a log succeeded.
pub open spec fn all_took<E, F: Fn(usize, &[u8]) -> core::result::Result<(), E>>(
    put: F,
    log: Seq<(usize, &[u8])>,
) -> bool {
    forall|k: int|
        0 <= k < log.len() ==> put_took::<E, F>(put, (#[trigger] log[k]).0, log[k].1)
}

/// What the puts of a log handed to one file, joined in order.
pub open spec fn handed_to(log: Seq<(usize, &[u8])>, file: int) -> Seq<u8>
    decreases log.len(),
{
    if log.len() == 0 {
        Seq::empty()
    } else if log.last().0 == file {
        handed_to(log.drop_last(), file) + log.last().1@
    } else {
        handed_to(log.drop_last(), file)
    }
}

/// What the puts of a log handed over, joined in order.
pub open spec fn handed_over(log: Seq<(usize, &[u8])>) -> Seq<u8>
    decreases log.len(),
{
    if log.len() == 0 {
        Seq::empty()
    } else {
        handed_over(log.drop_last()) + log.last().1@
    }
}

/// Puts that succeeded account for what was written: each file grew by exactly what they handed to
/// it, and together they handed over these bytes.
pub open spec fn puts_account_for(
    before: Seq<CfFile>,
    after: Seq<CfFile>,
    data: Seq<u8>,
    log: Seq<(usize, &[u8])>,
) -> bool {
    &&& before.len() == after.len()
    &&& handed_over(log) == data
    &&& forall|i: int|
        0 <= i < after.len() ==> (#[trigger] after[i]).written@ == before[i].written@ + handed_to(
            log,
            i,
        )
}

impl Snap {
    /// Files are filled in order: those before the current one are full, those behind it are
    /// empty.
    pub open spec fn fills_in_place(&self) -> bool {
        &&& self.cf_index <= self.cf_files@.len()
        &&& forall|i: int|
            0 <= i < self.cf_files@.len() ==> (#[trigger] self.cf_files@[i]).written_size
                <= self.cf_files@[i].size
        &&& forall|i: int|
            0 <= i < self.cf_index && i < self.cf_files@.len() ==> room(
                #[trigger] self.cf_files@[i],
            ) == 0
        &&& forall|i: int|
            self.cf_index < i < self.cf_files@.len() ==> (#[trigger] self.cf_files@[i]).written_size
                == 0
    }

    /// The snapshot is being received: its files are filled in order, with the bytes that were
    /// written.
    pub open spec fn receiving(&self) -> bool {
        &&& self.fills_in_place()
        &&& forall|i: int|
            0 <= i < self.cf_files@.len() ==> (#[trigger] self.cf_files@[i]).written@.len()
                == self.cf_files@[i].written_size
    }

    /// Whether the sizes are those of files that are filled in order. Not so of a snapshot from
    /// which something was read.
    pub fn can_receive(&self) -> (yes: bool)
        ensures
            yes == self.fills_in_place(),
    {
        if self.cf_index > self.cf_files.len() {
            return false;
        }
        let mut i: usize = 0;
        while i < self.cf_files.len()
            invariant
                i <= self.cf_files@.len(),
                self.cf_index <= self.cf_files@.len(),
                forall|j: int|
                    0 <= j < i ==> (#[trigger] self.cf_files@[j]).written_size
                        <= self.cf_files@[j].size && (j < self.cf_index ==> room(
                        self.cf_files@[j],
                    ) == 0) && (self.cf_index < j ==> self.cf_files@[j].written_size == 0),
            decreases self.cf_files@.len() - i,
        {
            let file = &self.cf_files[i];
            if file.written_size > file.size {
                return false;
            }
            if i < self.cf_index && file.written_size != file.size {
                assert(room(self.cf_files@[i as int]) != 0);
                return false;
            }
            if self.cf_index < i && file.written_size != 0 {
                assert(self.cf_files@[i as int].written_size != 0);
                return false;
            }
            i = i + 1;
        }
        true
    }

    /// Writes a buffer: each file takes what it has room for, in order, and `put` writes that to
    /// it. Says how many bytes were taken. Where `put` fails, what it was given for is not counted,
    /// and its error is returned.
    pub fn write<E, F: Fn(usize, &[u8]) -> core::result::Result<(), E>>(
        &mut self,
        buf: &[u8],
        put: F,
    ) -> (res: core::result::Result<usize, E>)
        requires
            old(self).receiving(),
            forall|i: usize, data: &[u8]| #[trigger] put.requires((i, data)),
        ensures
            final(self).receiving(),
            final(self).display_path == old(self).display_path,
            final(self).meta_file == old(self).meta_file,
            match res {
                Ok(n) => {
                    &&& n == accepted(old(self).cf_files@, buf@.len())
                    &&& final(self).cf_files@ == after_write(old(self).cf_files@, buf@)
                    &&& final(self).received() == old(self).received() + buf@.take(n as int)
                },
                Err(_) => {
                    let n = final(self).received().len() - old(self).received().len();
                    &&& 0 <= n <= buf@.len()
                    &&& final(self).cf_files@ == after_write(old(self).cf_files@, buf@.take(n))
                    &&& final(self).received() == old(self).received() + buf@.take(n)
                },
            },
            exists|log: Seq<(usize, &[u8])>|
                #![trigger all_took::<E, F>(put, log)]
                all_took::<E, F>(put, log) && puts_account_for(
                    old(self).cf_files@,
                    final(self).cf_files@,
                    buf@.take(final(self).received().len() - old(self).received().len()),
                    log,
                ),
            res is Err ==> exists|
                i: usize,
                data: &[u8],
                failed: core::result::Result<(), E>,
            |
                {
                    &&& #[trigger] put.ensures((i, data), failed)
                    &&& failed is Err
                    &&& failed->Err_0 == res->Err_0
                    &&& data@.is_prefix_of(
                        buf@.skip(final(self).received().len() - old(self).received().len()),
                    )
                },
    {
        let ghost files = self.cf_files@;
        let ghost mut log: Seq<(usize, &[u8])> = Seq::empty();
        let mut at: usize = 0;
        proof {
            law_receiving_fills_in_order(*self);
            lemma_midway_start(files, buf@);
        }
        while at < buf.len()
            invariant
                at <= buf@.len(),
                self.receiving(),
                self.display_path == old(self).display_path,
                self.meta_file == old(self).meta_file,
                files == old(self).cf_files@,
                within_sizes(files),
                filled_in_order(files),
                forall|i: usize, data: &[u8]| #[trigger] put.requires((i, data)),
                midway(files, self.cf_files@, buf@, at as int, log),
                all_took::<E, F>(put, log),
            decreases buf@.len() - at,
        {
            let rest: usize = buf.len() - at;
            let ghost now = self.cf_files@;
            match self.next_write(rest) {
                None => {
                    proof {
                        lemma_midway_full(files, now, buf@, at as int, log);
                    }
                    return Ok(at);
                },
                Some((file, len)) => {
                    let data = slice_subrange(buf, at, at + len);
                    if let Err(e) = put(file, data) {
                        proof {
                            lemma_midway_gives(files, now, buf@, at as int, log);
                            assert(data@.is_prefix_of(buf@.skip(at as int)));
                        }
                        return Err(e);
                    }
                    self.wrote(data, rest);
                    proof {
                        assert(data@ =~= buf@.subrange(at as int, at + len));
                        let more = buf@.skip(at + len);
                        assert(after_write(now, data@ + more) == after_write(
                            self.cf_files@,
                            more,
                        ));
                        assert(put_took::<E, F>(put, file, data));
                        lemma_log_grows::<E, F>(put, log, file, data);
                        lemma_midway_step(files, now, self.cf_files@, buf@, at as int, log, file, data);
                        log = log.push((file, data));
                    }
                    at = at + len;
                },
            }
        }
        proof {
            lemma_midway_end(files, self.cf_files@, buf@, log);
        }
        Ok(at)
    }

    /// All bytes that were written.
    pub open spec fn received(&self) -> Seq<u8> {
        stream(written_contents(self.cf_files@))
    }

    /// Where to write next, and how many bytes, while some of a buffer are left. `None` if all
    /// files are full: no more bytes are taken.
    pub fn next_write(&mut self, rest: usize) -> (chunk: Option<(usize, usize)>)
        requires
            old(self).receiving(),
            rest > 0,
        ensures
            final(self).receiving(),
            final(self).cf_files == old(self).cf_files,
            final(self).display_path == old(self).display_path,
            final(self).meta_file == old(self).meta_file,
            match chunk {
                Some((file, len)) => {
                    let left = room(old(self).cf_files@[file as int]);
                    &&& old(self).cf_index <= file < old(self).cf_files@.len()
                    &&& final(self).cf_index == file
                    &&& left > 0
                    &&& len == if rest > left {
                        left
                    } else {
                        rest as int
                    }
                    &&& forall|i: int|
                        0 <= i < file ==> room(#[trigger] old(self).cf_files@[i]) == 0
                },
                None => {
                    &&& final(self).cf_index == old(self).cf_files@.len()
                    &&& forall|i: int|
                        0 <= i < old(self).cf_files@.len() ==> room(
                            #[trigger] old(self).cf_files@[i],
                        ) == 0
                },
            },
    {
        while self.cf_index < self.cf_files.len()
            invariant
                self.receiving(),
                rest > 0,
                self.cf_files == old(self).cf_files,
                self.display_path == old(self).display_path,
                self.meta_file == old(self).meta_file,
                old(self).cf_index <= self.cf_index,
            decreases self.cf_files@.len() - self.cf_index,
        {
            let index: usize = self.cf_index;
            assert(self.cf_files@[index as int].written_size <= self.cf_files@[index as int].size);
            let left: u64 = self.cf_files[index].size - self.cf_files[index].written_size;
            if left > 0 {
                let len: usize = if rest as u64 > left {
                    left as usize
                } else {
                    rest
                };
                return Some((index, len));
            }
            self.cf_index = index + 1;
        }
        None
    }

    /// These bytes of a buffer were written to the current file. Goes on to the next file if they
    /// filled it and more of the buffer is left.
    pub fn wrote(&mut self, data: &[u8], rest: usize)
        requires
            old(self).receiving(),
            old(self).cf_index < old(self).cf_files@.len(),
            data@.len() <= rest,
            data@.len() <= room(old(self).cf_files@[old(self).cf_index as int]),
            data@.len() == rest || data@.len() == room(
                old(self).cf_files@[old(self).cf_index as int],
            ),
        ensures
            final(self).receiving(),
            ({
                let index = old(self).cf_index;
                let file = old(self).cf_files@[index as int];
                &&& final(self).cf_files@ == old(self).cf_files@.update(
                    index as int,
                    CfFile {
                        written_size: (file.written_size + data@.len()) as u64,
                        written: Ghost(file.written@ + data@),
                        ..file
                    },
                )
                &&& final(self).cf_index == if rest > room(file) {
                    index + 1
                } else {
                    index as int
                }
            }),
            final(self).received() == old(self).received() + data@,
            forall|more: Seq<u8>|
                data@.len() + more.len() == rest ==> #[trigger] after_write(
                    old(self).cf_files@,
                    data@ + more,
                ) == after_write(final(self).cf_files@, more),
            final(self).cf_files@ == after_write(old(self).cf_files@, data@),
            final(self).display_path == old(self).display_path,
            final(self).meta_file == old(self).meta_file,
    {
        let index: usize = self.cf_index;
        let ghost files = self.cf_files@;
        let left: u64 = self.cf_files[index].size - self.cf_files[index].written_size;
        self.cf_files[index].written_size = self.cf_files[index].written_size + data.len() as u64;
        self.cf_files[index].written = Ghost(files[index as int].written@ + data@);
        if rest as u64 > left {
            assert(index < self.cf_files.len());
            self.cf_index = index + 1;
        }
        proof {
            let before = written_contents(files);
            let after = written_contents(self.cf_files@);
            assert(after =~= before.update(index as int, before[index as int] + data@));
            assert forall|i: int| index < i < before.len() implies (#[trigger] before[i]).len()
                == 0 by {
                assert(files[i].written_size == 0);
            }
            lemma_stream_grows(before, index as int, data@);
            assert(self.cf_files@ =~= files.update(
                index as int,
                filled(files[index as int], data@),
            ));
            assert forall|more: Seq<u8>| data@.len() + more.len() == rest implies #[trigger]
                after_write(files, data@ + more) == after_write(self.cf_files@, more) by {
                lemma_write_step(files, index as int, data@, more);
            }
            let none = Seq::<u8>::empty();
            lemma_write_step(files, index as int, data@, none);
            assert(data@ + none =~= data@);
            law_receiving_fills_in_order(*self);
            law_write_of_nothing(self.cf_files@, none);
        }
    }

    /// Which file to read from next, for a buffer of some length. `None` if the buffer is empty or
    /// everything was read.
    pub fn next_read(&self, buf_len: usize) -> (file: Option<usize>)
        ensures
            file == (if buf_len > 0 && self.cf_index < self.cf_files@.len() {
                Some(self.cf_index)
            } else {
                None
            }),
    {
        if buf_len > 0 && self.cf_index < self.cf_files.len() {
            Some(self.cf_index)
        } else {
            None
        }
    }

    /// The current file gave this many bytes. If it gave none it is at its end, and the next one is
    /// to be read.
    pub fn read(&mut self, count: usize) -> (done: bool)
        requires
            old(self).cf_index < old(self).cf_files@.len(),
        ensures
            done == (count > 0),
            final(self).cf_index == (if count > 0 {
                old(self).cf_index as int
            } else {
                old(self).cf_index + 1
            }),
            final(self).cf_files == old(self).cf_files,
            final(self).display_path == old(self).display_path,
            final(self).meta_file == old(self).meta_file,
            forall|contents: Seq<Seq<u8>>, given: Seq<Seq<u8>>|
                count == 0 && contents.len() == old(self).cf_files@.len() ==> (
                #[trigger] reads_to_end(contents, final(self).cf_index as int, 0, given)
                    <==> reads_to_end(
                    contents,
                    old(self).cf_index as int,
                    contents[old(self).cf_index as int].len() as int,
                    given,
                )),
            forall|contents: Seq<Seq<u8>>, offset: int, given: Seq<Seq<u8>>|
                ({
                    let content = contents[old(self).cf_index as int];
                    &&& contents.len() == old(self).cf_files@.len()
                    &&& 0 < count
                    &&& 0 <= offset
                    &&& offset + count <= content.len()
                    &&& given.len() > 0
                    &&& given[0] == content.subrange(offset, offset + count)
                }) ==> (#[trigger] reads_to_end(
                    contents,
                    old(self).cf_index as int,
                    offset,
                    given,
                ) <==> reads_to_end(
                    contents,
                    final(self).cf_index as int,
                    offset + count,
                    given.drop_first(),
                )),
    {
        if count == 0 {
            assert(self.cf_index < self.cf_files.len());
            self.cf_index = self.cf_index + 1;
            return false;
        }
        true
    }

    /// Which file a flush goes to, if any.
    pub fn flush(&self) -> (file: Option<usize>)
        ensures
            file == (if self.cf_index < self.cf_files@.len() {
                Some(self.cf_index)
            } else {
                None
            }),
    {
        if self.cf_index < self.cf_files.len() {
            Some(self.cf_index)
        } else {
            None
        }
    }
}

/// How far a write has come: this many bytes of the buffer were taken by puts, which account for
/// them, and what is left of it leads to where the whole of it leads.
#[verifier::opaque]
spec fn midway(
    files: Seq<CfFile>,
    now: Seq<CfFile>,
    buf: Seq<u8>,
    at: int,
    log: Seq<(usize, &[u8])>,
) -> bool {
    &&& 0 <= at <= buf.len()
    &&& after_write(files, buf) == after_write(now, buf.skip(at))
    &&& after_write(files, buf.take(at)) == now
    &&& stream(written_contents(now)) == stream(written_contents(files)) + buf.take(at)
    &&& puts_account_for(files, now, buf.take(at), log)
}

proof fn lemma_midway_start(files: Seq<CfFile>, buf: Seq<u8>)
    requires
        within_sizes(files),
    ensures
        midway(files, files, buf, 0, Seq::empty()),
{
    reveal(midway);
    let log = Seq::<(usize, &[u8])>::empty();
    assert forall|i: int| 0 <= i < files.len() implies (#[trigger] files[i]).written@
        == files[i].written@ + handed_to(log, i) by {
        assert(files[i].written@ + handed_to(log, i) =~= files[i].written@);
    }
    let before = stream(written_contents(files));
    assert(buf.skip(0) =~= buf);
    assert(buf.take(0) =~= Seq::<u8>::empty());
    law_write_of_nothing(files, buf.take(0));
    assert(before + buf.take(0) =~= before);
}

proof fn lemma_midway_gives(
    files: Seq<CfFile>,
    now: Seq<CfFile>,
    buf: Seq<u8>,
    at: int,
    log: Seq<(usize, &[u8])>,
)
    requires
        midway(files, now, buf, at, log),
    ensures
        0 <= at <= buf.len(),
        stream(written_contents(now)).len() - stream(written_contents(files)).len() == at,
        stream(written_contents(now)) == stream(written_contents(files)) + buf.take(at),
        after_write(files, buf.take(at)) == now,
        puts_account_for(files, now, buf.take(at), log),
{
    reveal(midway);
}

proof fn lemma_midway_full(
    files: Seq<CfFile>,
    now: Seq<CfFile>,
    buf: Seq<u8>,
    at: int,
    log: Seq<(usize, &[u8])>,
)
    requires
        within_sizes(files),
        filled_in_order(files),
        within_sizes(now),
        midway(files, now, buf, at, log),
        forall|i: int| 0 <= i < now.len() ==> room(#[trigger] now[i]) == 0,
    ensures
        at == accepted(files, buf.len()),
        now == after_write(files, buf),
        stream(written_contents(now)).len() - stream(written_contents(files)).len() == at,
        stream(written_contents(now)) == stream(written_contents(files)) + buf.take(at),
        puts_account_for(files, now, buf.take(at), log),
{
    reveal(midway);
    law_write_of_nothing(now, buf.skip(at));
    lemma_received_len(now);
    lemma_same_total(files, buf.take(at));
}

proof fn lemma_midway_end(
    files: Seq<CfFile>,
    now: Seq<CfFile>,
    buf: Seq<u8>,
    log: Seq<(usize, &[u8])>,
)
    requires
        within_sizes(files),
        filled_in_order(files),
        midway(files, now, buf, buf.len() as int, log),
    ensures
        buf.len() == accepted(files, buf.len()),
        now == after_write(files, buf),
        stream(written_contents(now)).len() - stream(written_contents(files)).len() == buf.len(),
        stream(written_contents(now)) == stream(written_contents(files)) + buf.take(
            buf.len() as int,
        ),
        puts_account_for(files, now, buf.take(buf.len() as int), log),
{
    reveal(midway);
    assert(buf.take(buf.len() as int) =~= buf);
    law_whole_write(files, buf);
    assert(stream(written_contents(now)).len() == stream(written_contents(files)).len()
        + buf.len());
    lemma_received_len(now);
    lemma_same_total(files, buf);
}

proof fn lemma_midway_step(
    files: Seq<CfFile>,
    now: Seq<CfFile>,
    later: Seq<CfFile>,
    buf: Seq<u8>,
    at: int,
    log: Seq<(usize, &[u8])>,
    file: usize,
    data: &[u8],
)
    requires
        within_sizes(files),
        midway(files, now, buf, at, log),
        at + data@.len() <= buf.len(),
        data@ == buf.subrange(at, at + data@.len()),
        file < now.len(),
        later == now.update(file as int, filled(now[file as int], data@)),
        later == after_write(now, data@),
        after_write(now, data@ + buf.skip(at + data@.len())) == after_write(
            later,
            buf.skip(at + data@.len()),
        ),
        stream(written_contents(later)) == stream(written_contents(now)) + data@,
    ensures
        midway(files, later, buf, at + data@.len(), log.push((file, data))),
{
    reveal(midway);
    let len = data@.len() as int;
    let grown = log.push((file, data));
    let before = stream(written_contents(files));
    assert(buf.skip(at) =~= data@ + buf.skip(at + len));
    assert(buf.take(at + len) =~= buf.take(at) + data@);
    law_split_write(files, buf.take(at), data@);
    assert(before + buf.take(at + len) =~= before + buf.take(at) + data@);
    assert(grown.drop_last() =~= log);
    assert forall|i: int| 0 <= i < later.len() implies (#[trigger] later[i]).written@
        == files[i].written@ + handed_to(grown, i) by {
        assert(now[i].written@ == files[i].written@ + handed_to(log, i));
        if i == file {
            assert(files[i].written@ + handed_to(grown, i) =~= now[i].written@ + data@);
        }
    }
}

proof fn lemma_log_grows<E, F: Fn(usize, &[u8]) -> core::result::Result<(), E>>(
    put: F,
    log: Seq<(usize, &[u8])>,
    file: usize,
    data: &[u8],
)
    requires
        all_took::<E, F>(put, log),
        put_took::<E, F>(put, file, data),
    ensures
        all_took::<E, F>(put, log.push((file, data))),
{
    let grown = log.push((file, data));
    assert forall|k: int| 0 <= k < grown.len() implies put_took::<E, F>(
        put,
        (#[trigger] grown[k]).0,
        grown[k].1,
    ) by {
        if k < log.len() {
            assert(grown[k] == log[k]);
        }
    }
}

proof fn lemma_filled_with_nothing(file: CfFile)
    ensures
        filled(file, Seq::empty()) == file,
{
    assert(file.written@ + Seq::<u8>::empty() =~= file.written@);
}

/// Files whose sizes hold what was written.
pub open spec fn within_sizes(files: Seq<CfFile>) -> bool {
    forall|i: int|
        0 <= i < files.len() ==> (#[trigger] files[i]).written@.len() == files[i].written_size
            && files[i].written_size <= files[i].size
}

/// Files that are filled in order: where one has room left, nothing was written to those behind.
pub open spec fn filled_in_order(files: Seq<CfFile>) -> bool {
    forall|i: int, j: int|
        0 <= i < j < files.len() ==> room(#[trigger] files[i]) == 0 || (
        #[trigger] files[j]).written_size == 0
}

/// An empty buffer changes nothing, and full files take nothing.
pub proof fn law_write_of_nothing(files: Seq<CfFile>, buf: Seq<u8>)
    requires
        within_sizes(files),
        buf.len() == 0 || forall|i: int| 0 <= i < files.len() ==> room(#[trigger] files[i]) == 0,
    ensures
        after_write(files, buf) == files,
    decreases files.len(),
{
    if files.len() > 0 {
        let rest = files.drop_first();
        let count = share(files[0], buf.len());
        assert(files[0].written_size <= files[0].size);
        assert(count == 0);
        assert(buf.take(count) =~= Seq::<u8>::empty());
        assert(buf.skip(count) =~= buf);
        lemma_filled_with_nothing(files[0]);
        assert forall|i: int| 0 <= i < rest.len() implies (#[trigger] rest[i]).written@.len()
            == rest[i].written_size && rest[i].written_size <= rest[i].size by {
            assert(rest[i] == files[i + 1]);
        }
        if buf.len() > 0 {
            assert forall|i: int| 0 <= i < rest.len() implies room(#[trigger] rest[i]) == 0 by {
                assert(rest[i] == files[i + 1]);
            }
        }
        law_write_of_nothing(rest, buf);
        assert(seq![files[0]] + rest =~= files);
    }
}

/// Writing to the first file that has room leads to where the whole buffer leads.
proof fn lemma_write_step(files: Seq<CfFile>, index: int, data: Seq<u8>, more: Seq<u8>)
    requires
        within_sizes(files),
        0 <= index < files.len(),
        forall|i: int| 0 <= i < index ==> room(#[trigger] files[i]) == 0,
        data.len() <= room(files[index]),
        more.len() == 0 || data.len() == room(files[index]),
    ensures
        after_write(files, data + more) == after_write(
            files.update(index, filled(files[index], data)),
            more,
        ),
    decreases index,
{
    let whole = data + more;
    let rest = files.drop_first();
    let next = files.update(index, filled(files[index], data));
    assert(files[index].written_size <= files[index].size);
    assert forall|i: int| 0 <= i < rest.len() implies (#[trigger] rest[i]).written@.len()
        == rest[i].written_size && rest[i].written_size <= rest[i].size by {
        assert(rest[i] == files[i + 1]);
    }
    if index == 0 {
        let count = share(files[0], whole.len());
        assert(count == data.len());
        assert(whole.take(count) =~= data);
        assert(whole.skip(count) =~= more);
        assert(next.drop_first() =~= rest);
        let again = share(next[0], more.len());
        assert(again == 0);
        assert(more.take(again) =~= Seq::<u8>::empty());
        assert(more.skip(again) =~= more);
        lemma_filled_with_nothing(next[0]);
    } else {
        assert(room(files[0]) == 0);
        assert(next[0] == files[0]);
        assert(whole.take(0) =~= Seq::<u8>::empty());
        assert(whole.skip(0) =~= whole);
        assert(more.take(0) =~= Seq::<u8>::empty());
        assert(more.skip(0) =~= more);
        assert(rest[index - 1] == files[index]);
        assert forall|i: int| 0 <= i < index - 1 implies room(#[trigger] rest[i]) == 0 by {
            assert(rest[i] == files[i + 1]);
        }
        lemma_write_step(rest, index - 1, data, more);
        assert(next.drop_first() =~= rest.update(index - 1, filled(rest[index - 1], data)));
    }
}

proof fn lemma_stream_front(contents: Seq<Seq<u8>>)
    requires
        contents.len() > 0,
    ensures
        stream(contents) == contents[0] + stream(contents.drop_first()),
    decreases contents.len(),
{
    if contents.len() == 1 {
        assert(contents.drop_first() =~= Seq::<Seq<u8>>::empty());
        assert(contents.drop_last() =~= Seq::<Seq<u8>>::empty());
        assert(stream(contents) =~= contents[0] + stream(contents.drop_first()));
    } else {
        lemma_stream_front(contents.drop_last());
        assert(contents.drop_last().drop_first() =~= contents.drop_first().drop_last());
        assert(stream(contents) =~= contents[0] + stream(contents.drop_first()));
    }
}

proof fn lemma_total_front(files: Seq<CfFile>)
    requires
        files.len() > 0,
    ensures
        total_of(files) == files[0].size + total_of(files.drop_first()),
    decreases files.len(),
{
    if files.len() == 1 {
        assert(files.drop_first() =~= Seq::<CfFile>::empty());
        assert(files.drop_last() =~= Seq::<CfFile>::empty());
    } else {
        lemma_total_front(files.drop_last());
        assert(files.drop_last().drop_first() =~= files.drop_first().drop_last());
    }
}

/// What a receiving snapshot is: its files are filled in order, within their sizes.
pub proof fn law_receiving_fills_in_order(snap: Snap)
    requires
        snap.receiving(),
    ensures
        within_sizes(snap.cf_files@),
        filled_in_order(snap.cf_files@),
{
    let files = snap.cf_files@;
    assert forall|i: int, j: int| 0 <= i < j < files.len() implies room(#[trigger] files[i]) == 0
        || (#[trigger] files[j]).written_size == 0 by {
        if i < snap.cf_index {
            assert(room(files[i]) == 0);
        } else {
            assert(files[j].written_size == 0);
        }
    }
}

proof fn lemma_tail(files: Seq<CfFile>)
    requires
        files.len() > 0,
        within_sizes(files),
        filled_in_order(files),
    ensures
        within_sizes(files.drop_first()),
        filled_in_order(files.drop_first()),
        written_contents(files).drop_first() == written_contents(files.drop_first()),
        written_contents(files)[0] == files[0].written@,
        room(files[0]) > 0 ==> stream(written_contents(files.drop_first())).len() == 0,
{
    let rest = files.drop_first();
    assert forall|i: int| 0 <= i < rest.len() implies (#[trigger] rest[i]).written@.len()
        == rest[i].written_size && rest[i].written_size <= rest[i].size by {
        assert(rest[i] == files[i + 1]);
    }
    assert forall|i: int, j: int| 0 <= i < j < rest.len() implies room(#[trigger] rest[i]) == 0
        || (#[trigger] rest[j]).written_size == 0 by {
        assert(rest[i] == files[i + 1] && rest[j] == files[j + 1]);
    }
    assert(written_contents(files).drop_first() =~= written_contents(rest));
    if room(files[0]) > 0 {
        assert forall|i: int| 0 <= i < rest.len() implies (#[trigger] written_contents(
            rest,
        )[i]).len() == 0 by {
            assert(rest[i] == files[i + 1]);
            assert(room(files[0]) == 0 || files[i + 1].written_size == 0);
        }
        lemma_stream_of_nothing(written_contents(rest));
    }
}

proof fn lemma_stream_of_nothing(contents: Seq<Seq<u8>>)
    requires
        forall|i: int| 0 <= i < contents.len() ==> (#[trigger] contents[i]).len() == 0,
    ensures
        stream(contents).len() == 0,
    decreases contents.len(),
{
    if contents.len() > 0 {
        assert(contents[contents.len() - 1].len() == 0);
        assert forall|i: int| 0 <= i < contents.drop_last().len() implies (
        #[trigger] contents.drop_last()[i]).len() == 0 by {
            assert(contents[i].len() == 0);
        }
        lemma_stream_of_nothing(contents.drop_last());
    }
}

/// A whole write takes the smaller of the buffer's length and what is left of the announced sizes,
/// and adds exactly those bytes to what was received. No file grows beyond its size.
pub proof fn law_whole_write(files: Seq<CfFile>, buf: Seq<u8>)
    requires
        within_sizes(files),
        filled_in_order(files),
    ensures
        within_sizes(after_write(files, buf)),
        filled_in_order(after_write(files, buf)),
        total_of(after_write(files, buf)) == total_of(files),
        0 <= accepted(files, buf.len()) <= buf.len(),
        stream(written_contents(after_write(files, buf))) == stream(written_contents(files))
            + buf.take(accepted(files, buf.len())),
    decreases files.len(),
{
    if files.len() == 0 {
        assert(written_contents(files) =~= Seq::<Seq<u8>>::empty());
        assert(buf.take(0) =~= Seq::<u8>::empty());
        assert(stream(written_contents(files)) =~= stream(written_contents(files)) + buf.take(0));
    } else {
        let file = files[0];
        let rest = files.drop_first();
        let count = share(file, buf.len());
        let after = after_write(files, buf);
        let tail = after_write(rest, buf.skip(count));
        let n = accepted(files, buf.len());
        let m = accepted(rest, buf.skip(count).len());
        assert(file.written@.len() == file.written_size && file.written_size <= file.size);
        lemma_tail(files);
        lemma_stream_front(written_contents(files));
        lemma_total_front(files);
        lemma_received_len(rest);
        law_whole_write(rest, buf.skip(count));
        assert(after[0] == filled(file, buf.take(count)));
        assert(after.drop_first() =~= tail);
        lemma_write_order(files, buf);
        lemma_total_front(after);
        assert(written_contents(after).drop_first() =~= written_contents(tail));
        lemma_stream_front(written_contents(after));
        assert(written_contents(after)[0] == file.written@ + buf.take(count));
        assert(n == count + m);
        assert(buf.take(n) =~= buf.take(count) + buf.skip(count).take(m));
        if count > 0 {
            assert(stream(written_contents(rest)) =~= Seq::<u8>::empty());
        } else {
            assert(buf.take(0) =~= Seq::<u8>::empty());
        }
        assert(stream(written_contents(after)) =~= stream(written_contents(files)) + buf.take(n));
    }
}

proof fn lemma_same_total(files: Seq<CfFile>, buf: Seq<u8>)
    requires
        within_sizes(files),
        filled_in_order(files),
    ensures
        total_of(after_write(files, buf)) == total_of(files),
{
    law_whole_write(files, buf);
}

proof fn lemma_write_order(files: Seq<CfFile>, buf: Seq<u8>)
    requires
        files.len() > 0,
        within_sizes(files),
        filled_in_order(files),
        within_sizes(after_write(files.drop_first(), buf.skip(share(files[0], buf.len())))),
        filled_in_order(after_write(files.drop_first(), buf.skip(share(files[0], buf.len())))),
    ensures
        within_sizes(after_write(files, buf)),
        filled_in_order(after_write(files, buf)),
{
    let count = share(files[0], buf.len());
    let rest = files.drop_first();
    let tail = after_write(rest, buf.skip(count));
    let after = after_write(files, buf);
    assert(files[0].written@.len() == files[0].written_size && files[0].written_size
        <= files[0].size);
    lemma_tail(files);
    if room(after[0]) > 0 {
        assert(buf.skip(count).len() == 0);
        law_write_of_nothing(rest, buf.skip(count));
    }
    assert forall|i: int| 0 <= i < after.len() implies (#[trigger] after[i]).written@.len()
        == after[i].written_size && after[i].written_size <= after[i].size by {
        if i > 0 {
            assert(after[i] == tail[i - 1]);
        }
    }
    assert forall|i: int, j: int| 0 <= i < j < after.len() implies room(#[trigger] after[i]) == 0
        || (#[trigger] after[j]).written_size == 0 by {
        assert(after[j] == tail[j - 1]);
        if i > 0 {
            assert(after[i] == tail[i - 1]);
        } else if room(after[0]) > 0 {
            assert(tail[j - 1] == files[j]);
            assert(room(files[0]) == 0 || files[j].written_size == 0);
        }
    }
}

/// Writing two buffers one after the other is writing them joined.
pub proof fn law_split_write(files: Seq<CfFile>, a: Seq<u8>, b: Seq<u8>)
    requires
        within_sizes(files),
    ensures
        after_write(files, a + b) == after_write(after_write(files, a), b),
    decreases files.len(),
{
    if files.len() > 0 {
        let file = files[0];
        let rest = files.drop_first();
        let whole = a + b;
        let first = share(file, a.len());
        let mid = after_write(files, a);
        assert(file.written_size <= file.size);
        assert forall|i: int| 0 <= i < rest.len() implies (#[trigger] rest[i]).written@.len()
            == rest[i].written_size && rest[i].written_size <= rest[i].size by {
            assert(rest[i] == files[i + 1]);
        }
        assert(mid[0] == filled(file, a.take(first)));
        assert(mid.drop_first() =~= after_write(rest, a.skip(first)));
        let second = share(mid[0], b.len());
        let count = share(file, whole.len());
        assert(count == first + second);
        assert(whole.take(count) =~= a.take(first) + b.take(second));
        assert(file.written@ + whole.take(count) =~= file.written@ + a.take(first) + b.take(
            second,
        ));
        assert(filled(file, whole.take(count)) == filled(mid[0], b.take(second)));
        assert(whole.skip(count) =~= a.skip(first) + b.skip(second));
        law_split_write(rest, a.skip(first), b.skip(second));
    }
}

/// What was received, and the announced sizes, determine the files: two snapshots that took the
/// same bytes, however these were cut into writes, hold the same.
pub proof fn law_received_determines_files(one: Snap, other: Snap)
    requires
        one.receiving(),
        other.receiving(),
        one.cf_files@.len() == other.cf_files@.len(),
        forall|i: int|
            0 <= i < one.cf_files@.len() ==> (#[trigger] one.cf_files@[i]).size
                == other.cf_files@[i].size,
        one.received() == other.received(),
    ensures
        written_contents(one.cf_files@) == written_contents(other.cf_files@),
{
    law_receiving_fills_in_order(one);
    law_receiving_fills_in_order(other);
    let (a, b) = (one.cf_files@, other.cf_files@);
    lemma_lengths_determined(a, b);
    assert forall|i: int| 0 <= i < a.len() implies (#[trigger] written_contents(a)[i]).len()
        == written_contents(b)[i].len() by {
        assert(a[i].written_size == b[i].written_size);
        assert(a[i].written@.len() == a[i].written_size);
        assert(b[i].written@.len() == b[i].written_size);
    }
    law_stream_determines_files(written_contents(a), written_contents(b));
}

proof fn lemma_lengths_determined(a: Seq<CfFile>, b: Seq<CfFile>)
    requires
        within_sizes(a),
        within_sizes(b),
        filled_in_order(a),
        filled_in_order(b),
        a.len() == b.len(),
        forall|i: int| 0 <= i < a.len() ==> (#[trigger] a[i]).size == b[i].size,
        stream(written_contents(a)).len() == stream(written_contents(b)).len(),
    ensures
        forall|i: int| 0 <= i < a.len() ==> (#[trigger] a[i]).written_size == b[i].written_size,
    decreases a.len(),
{
    if a.len() > 0 {
        lemma_tail(a);
        lemma_tail(b);
        lemma_stream_front(written_contents(a));
        lemma_stream_front(written_contents(b));
        assert(a[0].size == b[0].size);
        assert(a[0].written@.len() == a[0].written_size && a[0].written_size <= a[0].size);
        assert(b[0].written@.len() == b[0].written_size && b[0].written_size <= b[0].size);
        assert(a[0].written_size == b[0].written_size);
        let (c, d) = (a.drop_first(), b.drop_first());
        assert forall|i: int| 0 <= i < c.len() implies (#[trigger] c[i]).size == d[i].size by {
            assert(c[i] == a[i + 1] && d[i] == b[i + 1]);
        }
        lemma_lengths_determined(c, d);
        assert forall|i: int| 0 <= i < a.len() implies (#[trigger] a[i]).written_size
            == b[i].written_size by {
            if i > 0 {
                assert(c[i - 1] == a[i] && d[i - 1] == b[i]);
            }
        }
    }
}

proof fn lemma_stream_grows(contents: Seq<Seq<u8>>, index: int, data: Seq<u8>)
    requires
        0 <= index < contents.len(),
        forall|i: int| index < i < contents.len() ==> (#[trigger] contents[i]).len() == 0,
    ensures
        stream(contents.update(index, contents[index] + data)) == stream(contents) + data,
    decreases contents.len(),
{
    let grown = contents.update(index, contents[index] + data);
    if index == contents.len() - 1 {
        assert(grown.drop_last() =~= contents.drop_last());
        assert(stream(grown) =~= stream(contents) + data);
    } else {
        let front = contents.drop_last();
        lemma_stream_grows(front, index, data);
        assert(grown.drop_last() =~= front.update(index, front[index] + data));
        assert(contents[contents.len() - 1].len() == 0);
        assert(stream(grown) =~= stream(contents) + data);
    }
}

proof fn lemma_stream_len(contents: Seq<Seq<u8>>, other: Seq<Seq<u8>>)
    requires
        contents.len() == other.len(),
        forall|i: int| 0 <= i < contents.len() ==> (#[trigger] contents[i]).len() == other[i].len(),
    ensures
        stream(contents).len() == stream(other).len(),
    decreases contents.len(),
{
    if contents.len() > 0 {
        assert forall|i: int| 0 <= i < contents.len() - 1 implies (
        #[trigger] contents.drop_last()[i]).len() == other.drop_last()[i].len() by {
            assert(contents[i].len() == other[i].len());
        }
        lemma_stream_len(contents.drop_last(), other.drop_last());
        assert(contents[contents.len() - 1].len() == other[contents.len() - 1].len());
    }
}

/// Files of known sizes are determined by the stream that they make.
pub proof fn law_stream_determines_files(contents: Seq<Seq<u8>>, other: Seq<Seq<u8>>)
    requires
        contents.len() == other.len(),
        forall|i: int| 0 <= i < contents.len() ==> (#[trigger] contents[i]).len() == other[i].len(),
        stream(contents) == stream(other),
    ensures
        contents == other,
    decreases contents.len(),
{
    if contents.len() > 0 {
        let (a, b) = (contents.drop_last(), other.drop_last());
        let (x, y) = (contents.last(), other.last());
        assert forall|i: int| 0 <= i < a.len() implies (#[trigger] a[i]).len() == b[i].len() by {
            assert(contents[i].len() == other[i].len());
        }
        assert(contents[contents.len() - 1].len() == other[contents.len() - 1].len());
        lemma_stream_len(a, b);
        let n = stream(a).len() as int;
        assert(stream(contents).take(n) =~= stream(a));
        assert(stream(other).take(n) =~= stream(b));
        assert(stream(contents).skip(n) =~= x);
        assert(stream(other).skip(n) =~= y);
        law_stream_determines_files(a, b);
        assert(contents =~= a.push(x));
        assert(other =~= b.push(y));
    } else {
        assert(contents =~= other);
    }
}

/// What was read when this many bytes of a file were.
pub open spec fn read_up_to(contents: Seq<Seq<u8>>, index: int, offset: int) -> Seq<u8> {
    if index < contents.len() {
        stream(contents.take(index)) + contents[index].take(offset)
    } else {
        stream(contents)
    }
}

/// Reading gives the stream: it starts with nothing, each read adds the bytes that it gave, going
/// on at the end of a file adds none, and what was read in the end is everything.
pub proof fn law_reading_gives_the_stream(
    contents: Seq<Seq<u8>>,
    index: int,
    offset: int,
    count: int,
)
    requires
        0 <= index < contents.len(),
        0 <= offset,
        0 <= count,
        offset + count <= contents[index].len(),
    ensures
        read_up_to(contents, 0, 0) == Seq::<u8>::empty(),
        read_up_to(contents, index, offset + count) == read_up_to(contents, index, offset)
            + contents[index].subrange(offset, offset + count),
        read_up_to(contents, index + 1, 0) == read_up_to(
            contents,
            index,
            contents[index].len() as int,
        ),
        read_up_to(contents, contents.len() as int, 0) == stream(contents),
{
    assert(contents.take(0) =~= Seq::<Seq<u8>>::empty());
    assert(read_up_to(contents, 0, 0) =~= Seq::<u8>::empty());
    assert(contents[index].take(offset + count) =~= contents[index].take(offset)
        + contents[index].subrange(offset, offset + count));
    assert(read_up_to(contents, index, offset + count) =~= read_up_to(contents, index, offset)
        + contents[index].subrange(offset, offset + count));
    assert(contents.take(index + 1).drop_last() =~= contents.take(index));
    assert(contents[index].take(contents[index].len() as int) =~= contents[index]);
    if index + 1 < contents.len() {
        assert(contents[index + 1].take(0) =~= Seq::<u8>::empty());
        assert(read_up_to(contents, index + 1, 0) =~= stream(contents.take(index + 1)));
    } else {
        assert(contents.take(index + 1) =~= contents);
    }
}

/// What reads give one after the other, with a buffer that is not empty, from a place in the files
/// until one gives nothing: a file that is at its end is left for the next, one that is not gives
/// some of its bytes.
pub open spec fn reads_to_end(
    contents: Seq<Seq<u8>>,
    index: int,
    offset: int,
    given: Seq<Seq<u8>>,
) -> bool
    decreases given.len(), contents.len() - index,
{
    if index >= contents.len() {
        given.len() == 0
    } else if offset >= contents[index].len() {
        reads_to_end(contents, index + 1, 0, given)
    } else {
        &&& given.len() > 0
        &&& 0 < given[0].len() <= contents[index].len() - offset
        &&& given[0] == contents[index].subrange(offset, offset + given[0].len())
        &&& reads_to_end(contents, index, offset + given[0].len(), given.drop_first())
    }
}

proof fn lemma_reads(contents: Seq<Seq<u8>>, index: int, offset: int, given: Seq<Seq<u8>>)
    requires
        0 <= index <= contents.len(),
        0 <= offset,
        index < contents.len() ==> offset <= contents[index].len(),
        index == contents.len() ==> offset == 0,
        reads_to_end(contents, index, offset, given),
    ensures
        read_up_to(contents, index, offset) + stream(given) == stream(contents),
    decreases given.len(), contents.len() - index,
{
    if index == contents.len() {
        assert(read_up_to(contents, index, offset) + stream(given) =~= stream(contents));
    } else if offset == contents[index].len() {
        law_reading_gives_the_stream(contents, index, offset, 0);
        lemma_reads(contents, index + 1, 0, given);
    } else {
        let n = given[0].len() as int;
        law_reading_gives_the_stream(contents, index, offset, n);
        lemma_reads(contents, index, offset + n, given.drop_first());
        lemma_stream_front(given);
        assert(read_up_to(contents, index, offset) + stream(given) =~= read_up_to(
            contents,
            index,
            offset + n,
        ) + stream(given.drop_first()));
    }
}

/// Whatever buffers a snapshot is read with, what the reads give is all of its files, one after the
/// other, and as many bytes as the files have; files that are empty do not end it.
pub proof fn law_whole_read(files: Seq<CfFile>, contents: Seq<Seq<u8>>, given: Seq<Seq<u8>>)
    requires
        files.len() == contents.len(),
        forall|i: int|
            0 <= i < files.len() ==> (#[trigger] files[i]).size == contents[i].len(),
        reads_to_end(contents, 0, 0, given),
    ensures
        stream(given) == stream(contents),
        stream(given).len() == total_of(files),
{
    lemma_reads(contents, 0, 0, given);
    if contents.len() > 0 {
        law_reading_gives_the_stream(contents, 0, 0, 0);
    }
    assert(read_up_to(contents, 0, 0) =~= Seq::<u8>::empty());
    assert(Seq::<u8>::empty() + stream(given) =~= stream(given));
    lemma_stream_total(files, contents);
}

proof fn lemma_stream_total(files: Seq<CfFile>, contents: Seq<Seq<u8>>)
    requires
        files.len() == contents.len(),
        forall|i: int|
            0 <= i < files.len() ==> (#[trigger] files[i]).size == contents[i].len(),
    ensures
        stream(contents).len() == total_of(files),
    decreases files.len(),
{
    if files.len() > 0 {
        let (a, b) = (files.drop_last(), contents.drop_last());
        assert forall|i: int| 0 <= i < a.len() implies (#[trigger] a[i]).size == b[i].len() by {
            assert(a[i] == files[i] && b[i] == contents[i]);
        }
        lemma_stream_total(a, b);
        assert(files[files.len() - 1].size == contents[files.len() - 1].len());
    }
}

/// A copy is faithful: files that have taken the stream of other files of the same sizes hold what
/// those hold.
pub proof fn law_copy_is_faithful(copy: Snap, contents: Seq<Seq<u8>>)
    requires
        copy.receiving(),
        copy.cf_files@.len() == contents.len(),
        forall|i: int|
            0 <= i < contents.len() ==> (#[trigger] copy.cf_files@[i]).size == contents[i].len(),
        copy.received() == stream(contents),
    ensures
        written_contents(copy.cf_files@) == contents,
        forall|i: int| 0 <= i < contents.len() ==> room(#[trigger] copy.cf_files@[i]) == 0,
{
    let files = copy.cf_files@;
    let written = written_contents(files);
    assert forall|i: int| 0 <= i < files.len() implies (#[trigger] written[i]).len()
        <= contents[i].len() by {
        assert(files[i].written@.len() <= files[i].size);
    }
    lemma_full(written, contents);
    law_stream_determines_files(written, contents);
    assert forall|i: int| 0 <= i < contents.len() implies room(#[trigger] files[i]) == 0 by {
        assert(written[i].len() == contents[i].len());
    }
}

proof fn lemma_received_len(files: Seq<CfFile>)
    requires
        forall|i: int|
            0 <= i < files.len() ==> (#[trigger] files[i]).written@.len() == files[i].written_size
                && files[i].written_size <= files[i].size,
    ensures
        stream(written_contents(files)).len() <= total_of(files),
        stream(written_contents(files)).len() == total_of(files) <==> forall|i: int|
            0 <= i < files.len() ==> room(#[trigger] files[i]) == 0,
    decreases files.len(),
{
    if files.len() > 0 {
        let front = files.drop_last();
        let last = files[files.len() - 1];
        assert forall|i: int| 0 <= i < front.len() implies (#[trigger] front[i]).written@.len()
            == front[i].written_size && front[i].written_size <= front[i].size by {
            assert(front[i] == files[i]);
        }
        lemma_received_len(front);
        assert(written_contents(files).drop_last() =~= written_contents(front));
        assert(written_contents(files).last() == last.written@);
        assert((forall|i: int| 0 <= i < files.len() ==> room(#[trigger] files[i]) == 0) <==> (
        forall|i: int| 0 <= i < front.len() ==> room(#[trigger] front[i]) == 0) && room(last)
            == 0) by {
            if forall|i: int| 0 <= i < files.len() ==> room(#[trigger] files[i]) == 0 {
                assert forall|i: int| 0 <= i < front.len() implies room(#[trigger] front[i])
                    == 0 by {
                    assert(front[i] == files[i]);
                }
            }
            if (forall|i: int| 0 <= i < front.len() ==> room(#[trigger] front[i]) == 0) && room(
                last,
            ) == 0 {
                assert forall|i: int| 0 <= i < files.len() implies room(#[trigger] files[i])
                    == 0 by {
                    if i < front.len() {
                        assert(front[i] == files[i]);
                    }
                }
            }
        }
    }
}

/// A snapshot never takes more bytes than its metadata announces, and has taken all of them
/// exactly when every file is full.
pub proof fn law_received_is_bounded(snap: Snap)
    requires
        snap.receiving(),
    ensures
        snap.received().len() <= total_of(snap.cf_files@),
        snap.received().len() == total_of(snap.cf_files@) <==> forall|i: int|
            0 <= i < snap.cf_files@.len() ==> room(#[trigger] snap.cf_files@[i]) == 0,
{
    lemma_received_len(snap.cf_files@);
}

/// The sizes and checksums of contents.
pub open spec fn measured(contents: Seq<Seq<u8>>) -> Seq<(u64, u32)> {
    contents.map_values(|content: Seq<u8>| (content.len() as u64, crc32_of(content)))
}

/// A copy passes the check when it is saved: if the metadata describes the files that were sent,
/// what was received has the sizes and checksums that it says.
pub proof fn law_copy_can_be_saved(copy: Snap, contents: Seq<Seq<u8>>)
    requires
        copy.receiving(),
        copy.cf_files@.len() == contents.len(),
        forall|i: int| 0 <= i < contents.len() ==> (#[trigger] contents[i]).len() <= u64::MAX,
        as_recorded(copy.cf_files@, measured(contents)),
        copy.received() == stream(contents),
    ensures
        as_recorded(copy.cf_files@, measured(written_contents(copy.cf_files@))),
{
    assert forall|i: int| 0 <= i < contents.len() implies (#[trigger] copy.cf_files@[i]).size
        == contents[i].len() by {
        assert(measured(contents)[i] == (copy.cf_files@[i].size, copy.cf_files@[i].checksum));
    }
    law_copy_is_faithful(copy, contents);
}

/// Contents that are no longer one by one, and as long together, are as long one by one.
proof fn lemma_full(written: Seq<Seq<u8>>, contents: Seq<Seq<u8>>)
    requires
        written.len() == contents.len(),
        forall|i: int| 0 <= i < written.len() ==> (#[trigger] written[i]).len() <= contents[i].len(),
    ensures
        stream(written).len() <= stream(contents).len(),
        stream(written).len() == stream(contents).len() ==> forall|i: int|
            0 <= i < written.len() ==> (#[trigger] written[i]).len() == contents[i].len(),
    decreases written.len(),
{
    if written.len() > 0 {
        let (a, b) = (written.drop_last(), contents.drop_last());
        assert forall|i: int| 0 <= i < a.len() implies (#[trigger] a[i]).len() <= b[i].len() by {
            assert(written[i].len() <= contents[i].len());
        }
        lemma_full(a, b);
        let n = written.len() - 1;
        assert(written[n].len() <= contents[n].len());
        if stream(written).len() == stream(contents).len() {
            assert forall|i: int| 0 <= i < written.len() implies (#[trigger] written[i]).len()
                == contents[i].len() by {
                if i < n {
                    assert(a[i].len() == b[i].len());
                }
            }
        }
    }
}

/// Contents follow one another in the stream.
pub proof fn law_contents_follow(a: Seq<Seq<u8>>, b: Seq<Seq<u8>>, content: Seq<u8>)
    ensures
        stream(a + b) == stream(a) + stream(b),
        stream(seq![content]) == content,
    decreases b.len(),
{
    let one = seq![content];
    assert(one.drop_last() =~= Seq::<Seq<u8>>::empty());
    assert(stream(one.drop_last()) =~= Seq::<u8>::empty());
    assert(stream(one) =~= content);
    if b.len() == 0 {
        assert(a + b =~= a);
        assert(stream(a) + stream(b) =~= stream(a));
    } else {
        law_contents_follow(a, b.drop_last(), content);
        assert((a + b).drop_last() =~= a + b.drop_last());
        assert(stream(a + b) =~= stream(a) + stream(b));
    }
}

/// A write goes on as long as there is room: it takes the whole buffer, or leaves every file full.
/// It changes no size, and nothing that a file held before.
pub proof fn law_write_takes_all_it_can(files: Seq<CfFile>, buf: Seq<u8>)
    requires
        within_sizes(files),
        filled_in_order(files),
    ensures
        accepted(files, buf.len()) == buf.len() || forall|i: int|
            0 <= i < files.len() ==> room(#[trigger] after_write(files, buf)[i]) == 0,
        after_write(files, buf).len() == files.len(),
        forall|i: int|
            0 <= i < files.len() ==> {
                let after = #[trigger] after_write(files, buf)[i];
                &&& after.size == files[i].size
                &&& after.cf == files[i].cf && after.path == files[i].path && after.tmp_path
                    == files[i].tmp_path && after.checksum == files[i].checksum
                &&& files[i].written@.is_prefix_of(after.written@)
                &&& after.written_size == after.written@.len()
                &&& after.written_size <= after.size
            },
{
    let after = after_write(files, buf);
    law_whole_write(files, buf);
    lemma_write_keeps(files, buf);
    lemma_received_len(files);
    lemma_received_len(after);
    let n = accepted(files, buf.len());
    if n < buf.len() {
        assert(stream(written_contents(after)).len() == total_of(after));
    }
    assert forall|i: int| 0 <= i < files.len() implies ({
        let file = #[trigger] after[i];
        &&& file.written_size == file.written@.len()
        &&& file.written_size <= file.size
    }) by {
        assert(after[i].written@.len() == after[i].written_size);
    }
}

proof fn lemma_write_keeps(files: Seq<CfFile>, buf: Seq<u8>)
    ensures
        after_write(files, buf).len() == files.len(),
        forall|i: int|
            0 <= i < files.len() ==> {
                let after = #[trigger] after_write(files, buf)[i];
                &&& after.size == files[i].size
                &&& after.cf == files[i].cf && after.path == files[i].path && after.tmp_path
                    == files[i].tmp_path && after.checksum == files[i].checksum
                &&& files[i].written@.is_prefix_of(after.written@)
            },
    decreases files.len(),
{
    if files.len() > 0 {
        let count = share(files[0], buf.len());
        let rest = files.drop_first();
        lemma_write_keeps(rest, buf.skip(count));
        assert forall|i: int| 0 <= i < files.len() implies ({
            let after = #[trigger] after_write(files, buf)[i];
            &&& after.size == files[i].size
            &&& after.cf == files[i].cf && after.path == files[i].path && after.tmp_path
                == files[i].tmp_path && after.checksum == files[i].checksum
            &&& files[i].written@.is_prefix_of(after.written@)
        }) by {
            if i > 0 {
                assert(rest[i - 1] == files[i]);
                assert(after_write(files, buf)[i] == after_write(rest, buf.skip(count))[i - 1]);
            }
        }
    }
}

/// The room of a file is what was announced for it and not yet written.
pub proof fn law_room(file: CfFile)
    ensures
        room(file) + file.written_size == file.size,
{
}

/// What puts handed over goes put by put, in order; what they handed to a file is what those for
/// that file did.
pub proof fn law_puts_go_one_by_one(
    a: Seq<(usize, &[u8])>,
    b: Seq<(usize, &[u8])>,
    put: (usize, &[u8]),
    file: int,
)
    ensures
        handed_over(a + b) == handed_over(a) + handed_over(b),
        handed_over(seq![put]) == put.1@,
        handed_to(a + b, file) == handed_to(a, file) + handed_to(b, file),
        handed_to(seq![put], file) == (if put.0 == file {
            put.1@
        } else {
            Seq::empty()
        }),
    decreases b.len(),
{
    let one = seq![put];
    let none = Seq::<(usize, &[u8])>::empty();
    assert(one.drop_last() =~= none);
    assert(handed_over(none) =~= Seq::<u8>::empty());
    assert(handed_to(none, file) =~= Seq::<u8>::empty());
    assert(handed_over(one) =~= put.1@);
    assert(handed_to(one, file) =~= if put.0 == file {
        put.1@
    } else {
        Seq::empty()
    });
    if b.len() == 0 {
        assert(a + b =~= a);
        assert(handed_over(a) + handed_over(b) =~= handed_over(a));
        assert(handed_to(a, file) + handed_to(b, file) =~= handed_to(a, file));
    } else {
        law_puts_go_one_by_one(a, b.drop_last(), put, file);
        assert((a + b).drop_last() =~= a + b.drop_last());
        assert(handed_over(a + b) =~= handed_over(a) + handed_over(b));
        assert(handed_to(a + b, file) =~= handed_to(a, file) + handed_to(b, file));
    }
}

/// Nothing counts as written unless a put took it: where puts account for a write, every put of
/// them succeeded, what a file holds more than before is what they handed to it, and all that was
/// written is what they handed over.
pub proof fn law_written_is_what_was_put<
    E,
    F: Fn(usize, &[u8]) -> core::result::Result<(), E>,
>(
    put: F,
    before: Seq<CfFile>,
    after: Seq<CfFile>,
    data: Seq<u8>,
    log: Seq<(usize, &[u8])>,
    k: int,
    i: int,
)
    requires
        all_took::<E, F>(put, log),
        puts_account_for(before, after, data, log),
        0 <= k < log.len(),
        0 <= i < after.len(),
    ensures
        exists|taken: core::result::Result<(), E>| #[trigger]
            put.ensures((log[k].0, log[k].1), taken) && taken is Ok,
        after[i].written@ == before[i].written@ + handed_to(log, i),
        handed_over(log) == data,
{
    assert(put_took::<E, F>(put, log[k].0, log[k].1));
}

/// What was written to files is what each holds, file by file.
pub proof fn law_written_file_by_file(files: Seq<CfFile>, i: int)
    requires
        0 <= i < files.len(),
    ensures
        written_contents(files).len() == files.len(),
        written_contents(files)[i] == files[i].written@,
{
}

} // verus!
