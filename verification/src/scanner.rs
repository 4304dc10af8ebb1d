//! The line scanner: bytes go in block by block, chunks come out one by one.
//!
//! The scanner reads nothing itself. Whoever owns the stream feeds it what a
//! read returned, and closes it when the stream has ended; the scanner keeps
//! what does not yet make a whole chunk, however long that grows.

use vstd::prelude::*;
use vstd::slice::slice_subrange;
use vstd::slice::slice_to_vec;
use crate::lines::NEWLINE;
use crate::lines::after_first_chunk;
use crate::lines::find_newline;
use crate::lines::first_chunk;
use crate::lines::lemma_chunk_len_at;
use crate::lines::lemma_chunk_len_bounds;
use crate::lines::lemma_chunk_len_append;
use crate::lines::lemma_chunk_len_newline;
use crate::memory::Source;
use crate::memory::SourceView;
use crate::protocol::Failure;

verus! {

/// Whether a chunk can be taken from `pending`: a whole line is there, or
/// the stream has ended and left a remainder.
pub open spec fn chunk_ready(pending: Seq<u8>, closed: bool) -> bool {
    pending.contains(NEWLINE) || (closed && pending.len() > 0)
}

/// Cuts a stream that arrives in blocks into chunks.
pub struct LineScanner {
    /// Every byte fed and not yet dropped; those before `start` were handed out.
    buf: Vec<u8>,
    /// Where the pending bytes begin.
    start: usize,
    /// How many of the pending bytes are known to hold no newline.
    clean: usize,
    /// The stream has ended.
    closed: bool,
}

impl LineScanner {
    #[verifier::type_invariant]
    spec fn well_formed(self) -> bool {
        &&& self.start + self.clean <= self.buf@.len()
        &&& forall|j: int| self.start <= j < self.start + self.clean ==> self.buf@[j] != NEWLINE
    }

    /// The bytes that were fed and not yet handed out.
    pub closed spec fn pending(&self) -> Seq<u8> {
        self.buf@.skip(self.start as int)
    }

    /// Whether the end of the stream has been announced.
    pub closed spec fn closed(&self) -> bool {
        self.closed
    }

    /// A scanner at the start of a stream.
    pub fn new() -> (scanner: Self)
        ensures
            scanner.pending() == Seq::<u8>::empty(),
            !scanner.closed(),
    {
        let scanner = LineScanner { buf: Vec::new(), start: 0, clean: 0, closed: false };
        assert(scanner.buf@.skip(0) =~= Seq::<u8>::empty());
        scanner
    }

    /// Takes in the bytes that a read returned.
    pub fn feed(&mut self, block: &[u8])
        ensures
            final(self).pending() == old(self).pending() + block@,
            final(self).closed() == old(self).closed(),
    {
        proof {
            use_type_invariant(&*self);
        }
        let mut taken = LineScanner::new();
        core::mem::swap(self, &mut taken);
        let LineScanner { buf, start, clean, closed } = taken;
        let ghost pending = buf@.skip(start as int);
        // What was handed out is dropped here, so that the buffer holds
        // no more than what is pending.
        let mut kept: Vec<u8> = if start == 0 {
            buf
        } else {
            slice_to_vec(slice_subrange(buf.as_slice(), start, buf.len()))
        };
        assert(kept@ =~= pending);
        kept.extend_from_slice(block);
        assert(kept@ =~= pending + block@);
        *self = LineScanner { buf: kept, start: 0, clean, closed };
        assert(self.buf@.skip(0) =~= self.buf@);
    }

    /// Announces that the stream has ended: what is pending is its last chunk.
    pub fn close(&mut self)
        ensures
            final(self).pending() == old(self).pending(),
            final(self).closed(),
    {
        proof {
            use_type_invariant(&*self);
        }
        self.closed = true;
    }

    /// Whether the end of the stream has been announced.
    pub fn is_closed(&self) -> (b: bool)
        ensures
            b == self.closed(),
    {
        self.closed
    }

    /// Hands out the next chunk, if one is ready.
    pub fn poll(&mut self) -> (next: Option<Vec<u8>>)
        ensures
            final(self).closed() == old(self).closed(),
            match next {
                Some(chunk) => {
                    &&& chunk_ready(old(self).pending(), old(self).closed())
                    &&& chunk@ == first_chunk(old(self).pending())
                    &&& chunk@.len() > 0
                    &&& final(self).pending() == after_first_chunk(old(self).pending())
                },
                None => {
                    &&& !chunk_ready(old(self).pending(), old(self).closed())
                    &&& final(self).pending() == old(self).pending()
                },
            },
    {
        proof {
            use_type_invariant(&*self);
        }
        let ghost pending = self.pending();
        let len: usize = self.buf.len();
        let start: usize = self.start;
        let end: usize = match find_newline(self.buf.as_slice(), start + self.clean) {
            Some(i) => {
                proof {
                    assert forall|j: int| 0 <= j < i - start implies pending[j] != NEWLINE by {
                        assert(pending[j] == self.buf@[start + j]);
                    }
                    assert(pending[i - start] == NEWLINE);
                    lemma_chunk_len_at(pending, i - start);
                }
                i + 1
            },
            None => {
                proof {
                    if pending.contains(NEWLINE) {
                        let k = choose|k: int| 0 <= k < pending.len() && pending[k] == NEWLINE;
                        assert(self.buf@[start + k] == NEWLINE);
                    }
                    lemma_chunk_len_newline(pending);
                }
                if self.closed && start < len {
                    len
                } else {
                    self.clean = len - start;
                    return None;
                }
            },
        };
        let chunk: Vec<u8> = slice_to_vec(slice_subrange(self.buf.as_slice(), start, end));
        proof {
            lemma_chunk_len_bounds(pending);
            assert(chunk@ =~= first_chunk(pending));
            assert(self.buf@.skip(end as int) =~= after_first_chunk(pending));
        }
        self.clean = 0;
        self.start = end;
        Some(chunk)
    }
}

/// Reads a source chunk by chunk.
pub struct ChunkReader {
    source: Source,
    scanner: LineScanner,
    block: usize,
}

impl View for ChunkReader {
    type V = SourceView;

    /// What the reader has yet to give: the bytes that it holds and those
    /// that the source has left, and whether the source breaks after them.
    closed spec fn view(&self) -> SourceView {
        if self.scanner.closed() {
            SourceView { left: self.scanner.pending(), broken: false }
        } else {
            SourceView {
                left: self.scanner.pending() + self.source@.left,
                broken: self.source@.broken,
            }
        }
    }
}

impl ChunkReader {
    /// A reader at the start of `source`, which reads at most `block` bytes
    /// at a time; zero counts as one.
    pub fn new(source: Source, block: usize) -> (reader: Self)
        ensures
            reader@ == source@,
    {
        let reader = ChunkReader { source, scanner: LineScanner::new(), block };
        assert(Seq::<u8>::empty() + source@.left =~= source@.left);
        reader
    }

    /// Gives the next chunk and moves past it. A chunk without bytes means
    /// that the source has ended. Where the source breaks before the chunk
    /// is whole, the read fails and nothing is given.
    pub fn next_chunk(&mut self) -> (chunk: Result<Vec<u8>, Failure>)
        ensures
            final(self)@.broken == old(self)@.broken,
            match chunk {
                Ok(bytes) => {
                    &&& old(self)@.left.contains(NEWLINE) || !old(self)@.broken
                    &&& bytes@ == first_chunk(old(self)@.left)
                    &&& final(self)@.left == after_first_chunk(old(self)@.left)
                },
                Err(failure) => {
                    &&& failure == Failure::Read
                    &&& old(self)@.broken
                    &&& !old(self)@.left.contains(NEWLINE)
                    &&& final(self)@ == old(self)@
                },
            },
    {
        let max: usize = if self.block == 0 {
            1
        } else {
            self.block
        };
        let ghost whole = self@.left;
        loop
            invariant
                max >= 1,
                self@ == (SourceView { left: whole, broken: old(self)@.broken }),
                whole == old(self)@.left,
            decreases
                if self.scanner.closed() { 0nat } else { 1nat },
                self.source@.left.len(),
        {
            let ghost pending = self.scanner.pending();
            let ghost unread = self.source@.left;
            proof {
                lemma_chunk_len_append(pending, unread);
                lemma_chunk_len_bounds(pending);
                lemma_chunk_len_newline(pending);
            }
            match self.scanner.poll() {
                Some(bytes) => {
                    proof {
                        if pending.contains(NEWLINE) {
                            let k = choose|k: int| 0 <= k < pending.len() && pending[k] == NEWLINE;
                            assert(whole[k] == NEWLINE);
                            assert(first_chunk(whole) =~= first_chunk(pending));
                            assert(self@.left =~= after_first_chunk(whole));
                        } else {
                            assert(first_chunk(whole) =~= pending);
                            assert(self@.left =~= after_first_chunk(whole));
                        }
                    }
                    return Ok(bytes);
                },
                None => {},
            }
            if self.scanner.is_closed() {
                proof {
                    assert(whole =~= Seq::<u8>::empty());
                    assert(first_chunk(whole) =~= Seq::<u8>::empty());
                    assert(after_first_chunk(whole) =~= Seq::<u8>::empty());
                }
                return Ok(Vec::new());
            }
            match self.source.read(max) {
                Ok(bytes) => {
                    if bytes.len() == 0 {
                        self.scanner.close();
                        proof {
                            assert(unread =~= Seq::<u8>::empty());
                            assert(pending + unread =~= pending);
                        }
                    } else {
                        self.scanner.feed(bytes.as_slice());
                        proof {
                            assert(pending + bytes@ + self.source@.left =~= pending + unread);
                        }
                    }
                },
                Err(failure) => {
                    proof {
                        assert(unread.skip(0) =~= unread);
                        assert(pending + unread =~= pending);
                    }
                    return Err(failure);
                },
            }
        }
    }
}

} // verus!
