//! Lines of a byte stream: where they end and which of them are blank.
//!
//! A stream is cut into *chunks*. A chunk is a line together with the `\n`
//! that ends it, or what is left at the end of a stream that does not end
//! in `\n`. Nothing else is interpreted: bytes are bytes.

use vstd::prelude::*;

verus! {

/// The byte that ends a line.
pub const NEWLINE: u8 = 10;

/// The carriage return that may precede a newline.
pub const CARRIAGE_RETURN: u8 = 13;

/// Whether `b` is one of the two bytes that line endings are made of.
pub open spec fn is_line_end(b: u8) -> bool {
    b == NEWLINE || b == CARRIAGE_RETURN
}

/// What is left of `s` once every `\n` and `\r` at its end has been removed.
pub open spec fn strip_line_end(s: Seq<u8>) -> Seq<u8>
    decreases s.len(),
{
    if s.len() > 0 && is_line_end(s.last()) {
        strip_line_end(s.drop_last())
    } else {
        s
    }
}

/// A chunk is blank when nothing is left of it after its line ending has
/// been stripped.
pub open spec fn blank(chunk: Seq<u8>) -> bool {
    strip_line_end(chunk).len() == 0
}

/// The length of the first chunk of `s`: up to and including the first
/// newline, or all of `s` where it holds none.
pub open spec fn chunk_len(s: Seq<u8>) -> nat
    decreases s.len(),
{
    if s.len() == 0 {
        0
    } else if s[0] == NEWLINE {
        1
    } else {
        1 + chunk_len(s.skip(1))
    }
}

/// The first chunk of `s`.
pub open spec fn first_chunk(s: Seq<u8>) -> Seq<u8> {
    s.take(chunk_len(s) as int)
}

/// What follows the first chunk of `s`.
pub open spec fn after_first_chunk(s: Seq<u8>) -> Seq<u8> {
    s.skip(chunk_len(s) as int)
}

/// The chunks of `s`, in order.
pub open spec fn chunks(s: Seq<u8>) -> Seq<Seq<u8>>
    decreases s.len(),
{
    if s.len() == 0 {
        Seq::empty()
    } else {
        proof {
            lemma_chunk_len_bounds(s);
        }
        seq![first_chunk(s)] + chunks(after_first_chunk(s))
    }
}

/// Whether `s` is empty or ends in a newline: the next byte after it would
/// start a new chunk.
pub open spec fn is_complete(s: Seq<u8>) -> bool {
    s.len() == 0 || s.last() == NEWLINE
}

/// The first chunk of a non-empty sequence is non-empty and lies within it.
pub proof fn lemma_chunk_len_bounds(s: Seq<u8>)
    ensures
        chunk_len(s) <= s.len(),
        s.len() > 0 ==> chunk_len(s) > 0,
    decreases s.len(),
{
    if s.len() > 0 && s[0] != NEWLINE {
        lemma_chunk_len_bounds(s.skip(1));
    }
}

/// The first chunk holds no newline before its last byte, and its last byte
/// is a newline exactly when `s` holds one at all.
pub proof fn lemma_chunk_len_newline(s: Seq<u8>)
    ensures
        forall|i: int| 0 <= i < chunk_len(s) - 1 ==> s[i] != NEWLINE,
        s.contains(NEWLINE) ==> s[chunk_len(s) - 1] == NEWLINE,
        !s.contains(NEWLINE) ==> chunk_len(s) == s.len(),
    decreases s.len(),
{
    lemma_chunk_len_bounds(s);
    if s.len() == 0 {
    } else if s[0] == NEWLINE {
    } else {
        let t = s.skip(1);
        lemma_chunk_len_newline(t);
        lemma_chunk_len_bounds(t);
        assert forall|i: int| 0 <= i < chunk_len(s) - 1 implies s[i] != NEWLINE by {
            if i > 0 {
                assert(s[i] == t[i - 1]);
            }
        }
        if s.contains(NEWLINE) {
            let k = choose|k: int| 0 <= k < s.len() && s[k] == NEWLINE;
            assert(t[k - 1] == NEWLINE);
            assert(t.contains(NEWLINE));
            assert(s[chunk_len(s) - 1] == t[chunk_len(t) - 1]);
        } else {
            assert forall|j: int| 0 <= j < t.len() implies t[j] != NEWLINE by {
                assert(s[j + 1] == t[j]);
            }
        }
    }
}

/// Where the first newline of `s` is at index `i`, the first chunk ends
/// right after it.
pub proof fn lemma_chunk_len_at(s: Seq<u8>, i: int)
    requires
        0 <= i < s.len(),
        s[i] == NEWLINE,
        forall|j: int| 0 <= j < i ==> s[j] != NEWLINE,
    ensures
        chunk_len(s) == i + 1,
{
    lemma_chunk_len_newline(s);
    lemma_chunk_len_bounds(s);
    assert(s.contains(NEWLINE));
}

/// Bytes that follow a newline do not change the first chunk.
pub proof fn lemma_chunk_len_append(a: Seq<u8>, b: Seq<u8>)
    ensures
        a.contains(NEWLINE) ==> chunk_len(a + b) == chunk_len(a),
        !a.contains(NEWLINE) ==> chunk_len(a + b) == a.len() + chunk_len(b),
    decreases a.len(),
{
    if a.len() == 0 {
        assert(a + b =~= b);
    } else {
        let t = a.skip(1);
        assert((a + b).skip(1) =~= t + b);
        assert((a + b)[0] == a[0]);
        lemma_chunk_len_append(t, b);
        if a[0] == NEWLINE {
            assert(a.contains(NEWLINE));
        } else if a.contains(NEWLINE) {
            let k = choose|k: int| 0 <= k < a.len() && a[k] == NEWLINE;
            assert(t[k - 1] == NEWLINE);
            assert(t.contains(NEWLINE));
        } else {
            assert forall|j: int| 0 <= j < t.len() implies t[j] != NEWLINE by {
                assert(a[j + 1] == t[j]);
            }
        }
    }
}

/// A chunk is blank exactly when each of its bytes is `\n` or `\r`.
pub proof fn lemma_blank_all_line_ends(chunk: Seq<u8>)
    ensures
        blank(chunk) <==> forall|i: int| 0 <= i < chunk.len() ==> is_line_end(#[trigger] chunk[i]),
    decreases chunk.len(),
{
    if chunk.len() > 0 {
        let front = chunk.drop_last();
        lemma_blank_all_line_ends(front);
        lemma_strip_line_end_len(chunk);
        if is_line_end(chunk.last()) {
            if blank(chunk) {
                assert forall|i: int| 0 <= i < chunk.len() implies is_line_end(
                    #[trigger] chunk[i],
                ) by {
                    if i < front.len() {
                        assert(chunk[i] == front[i]);
                    }
                }
            } else {
                let i = choose|i: int| 0 <= i < front.len() && !is_line_end(#[trigger] front[i]);
                assert(!is_line_end(chunk[i]));
            }
        } else {
            assert(!is_line_end(chunk[chunk.len() - 1]));
        }
    }
}

/// Stripping never lengthens a sequence.
pub proof fn lemma_strip_line_end_len(s: Seq<u8>)
    ensures
        strip_line_end(s).len() <= s.len(),
    decreases s.len(),
{
    if s.len() > 0 && is_line_end(s.last()) {
        lemma_strip_line_end_len(s.drop_last());
    }
}

/// Put end to end, the chunks of `s` give `s` back: scanning loses nothing
/// and adds nothing.
pub proof fn lemma_chunks_flatten(s: Seq<u8>)
    ensures
        chunks(s).flatten() == s,
    decreases s.len(),
{
    if s.len() == 0 {
        assert(chunks(s).flatten() =~= s);
    } else {
        lemma_chunk_len_bounds(s);
        let rest = after_first_chunk(s);
        lemma_chunks_flatten(rest);
        let tail = chunks(rest);
        let all = seq![first_chunk(s)] + tail;
        assert(all.first() == first_chunk(s));
        assert(all.drop_first() =~= tail);
        assert(all.flatten() == first_chunk(s) + tail.flatten());
        assert(first_chunk(s) + rest =~= s);
    }
}

/// Every chunk is non-empty; every chunk but the last ends in a newline, and
/// no chunk holds a newline before its last byte.
pub proof fn lemma_chunks_shape(s: Seq<u8>, i: int)
    requires
        0 <= i < chunks(s).len(),
    ensures
        chunks(s)[i].len() > 0,
        forall|j: int| 0 <= j < chunks(s)[i].len() - 1 ==> chunks(s)[i][j] != NEWLINE,
        i < chunks(s).len() - 1 ==> chunks(s)[i].last() == NEWLINE,
        i == chunks(s).len() - 1 ==> (chunks(s)[i].last() == NEWLINE <==> s.last() == NEWLINE),
    decreases s.len(),
{
    lemma_chunk_len_bounds(s);
    lemma_chunk_len_newline(s);
    let rest = after_first_chunk(s);
    let tail = chunks(rest);
    if i == 0 {
        if tail.len() > 0 {
            assert(rest.len() > 0);
            if !s.contains(NEWLINE) {
                assert(false);
            }
        } else {
            assert(rest.len() == 0);
            assert(first_chunk(s) =~= s);
        }
    } else {
        lemma_chunks_shape(rest, i - 1);
        assert(chunks(s)[i] == tail[i - 1]);
        assert(rest.len() > 0);
        assert(rest.last() == s.last());
    }
}

/// After a complete first part, the chunks of the whole are the chunks of
/// the parts.
pub proof fn lemma_chunks_append(a: Seq<u8>, b: Seq<u8>)
    requires
        is_complete(a),
    ensures
        chunks(a + b) == chunks(a) + chunks(b),
    decreases a.len(),
{
    if a.len() == 0 {
        assert(a + b =~= b);
        assert(chunks(a) + chunks(b) =~= chunks(b));
    } else {
        assert(a[a.len() - 1] == NEWLINE);
        assert(a.contains(NEWLINE));
        lemma_chunk_len_append(a, b);
        lemma_chunk_len_bounds(a);
        let k = chunk_len(a) as int;
        assert((a + b).take(k) =~= a.take(k));
        assert((a + b).skip(k) =~= a.skip(k) + b);
        let rest = a.skip(k);
        if rest.len() > 0 {
            assert(rest.last() == a.last());
        }
        lemma_chunks_append(rest, b);
        assert(chunks(a + b) =~= chunks(a) + chunks(b));
    }
}

/// Classifies a chunk: `true` when nothing but `\n` and `\r` bytes are in it.
pub fn is_blank(chunk: &[u8]) -> (b: bool)
    ensures
        b == blank(chunk@),
{
    let mut end: usize = chunk.len();
    assert(chunk@.take(end as int) =~= chunk@);
    while end > 0 && (chunk[end - 1] == NEWLINE || chunk[end - 1] == CARRIAGE_RETURN)
        invariant
            end <= chunk@.len(),
            strip_line_end(chunk@) == strip_line_end(chunk@.take(end as int)),
        decreases end,
    {
        assert(chunk@.take(end as int).drop_last() =~= chunk@.take(end as int - 1));
        end -= 1;
    }
    end == 0
}

/// Looks for the first newline of `data` at or after `from`.
pub fn find_newline(data: &[u8], from: usize) -> (found: Option<usize>)
    ensures
        match found {
            Some(i) => from <= i < data@.len() && data@[i as int] == NEWLINE && forall|j: int|
                from <= j < i ==> data@[j] != NEWLINE,
            None => forall|j: int| from <= j < data@.len() ==> data@[j] != NEWLINE,
        },
{
    let mut i: usize = from;
    while i < data.len()
        invariant
            from <= i,
            forall|j: int| from <= j < i ==> data@[j] != NEWLINE,
        decreases data@.len() - i,
    {
        if data[i] == NEWLINE {
            return Some(i);
        }
        i += 1;
    }
    None
}

} // verus!
