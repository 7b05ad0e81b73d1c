//! Bookkeeping of the chunked QUIC streams that carry a file from node to node.

use vstd::prelude::*;

use crate::digest::{digest_input, sha256_of, StreamDigest};

verus! {

/// Size of the buffer that a stream is read into.
pub const CHUNK_SIZE: usize = 64 * 1024;

/// The UDP port on which daemons receive files.
pub const QUIC_PORT: u16 = 50052;

/// How far a download has come: bytes so far, and the size announced for it.
#[derive(Clone, Copy, Debug, Default)]
pub struct ReceiveProgress {
    pub bytes_received: u64,
    pub total_bytes: Option<u64>,
}

/// Running total after a read of `read` bytes: `None` when the read found the
/// end of the stream (no chunk, or an empty one), else the total plus the
/// chunk.
pub fn next_total(total: u64, read: Option<usize>) -> (r: Option<u64>)
    requires
        read matches Some(n) ==> total + n <= u64::MAX,
    ensures
        match read {
            None => r is None,
            Some(n) => if n == 0 { r is None } else { r == Some((total + n) as u64) },
        },
{
    match read {
        None => None,
        Some(n) => {
            if n == 0 {
                None
            } else {
                Some(total + n as u64)
            }
        },
    }
}

/// The total after a read: `None` at the end of the stream.
pub open spec fn total_after(total: u64, read: Option<usize>) -> Option<u64> {
    match read {
        None => None,
        Some(n) => if n == 0 { None } else { Some((total + n) as u64) },
    }
}

/// The progress after a read: `None` at the end of the stream.
pub open spec fn progress_after(p: ReceiveProgress, read: Option<usize>) -> Option<ReceiveProgress> {
    match total_after(p.bytes_received, read) {
        None => None,
        Some(t) => Some(ReceiveProgress { bytes_received: t, total_bytes: p.total_bytes }),
    }
}

/// The progress after reads of the given sizes, one after the other.
pub open spec fn progress_after_all(p: ReceiveProgress, reads: Seq<usize>) -> Option<ReceiveProgress>
    decreases reads.len(),
{
    if reads.len() == 0 {
        Some(p)
    } else {
        match progress_after_all(p, reads.drop_last()) {
            None => None,
            Some(q) => progress_after(q, Some(reads.last())),
        }
    }
}

/// The sum of the read sizes.
pub open spec fn sum_reads(reads: Seq<usize>) -> nat
    decreases reads.len(),
{
    if reads.len() == 0 {
        0
    } else {
        sum_reads(reads.drop_last()) + reads.last() as nat
    }
}

/// Reads of sizes n1, ..., nk, none empty, bring the count of received bytes
/// to the start plus n1 + ... + nk, and keep the announced size.
pub proof fn progress_sums_the_reads(p: ReceiveProgress, reads: Seq<usize>)
    requires
        forall|i: int| 0 <= i < reads.len() ==> #[trigger] reads[i] > 0,
        p.bytes_received + sum_reads(reads) <= u64::MAX,
    ensures
        progress_after_all(p, reads) == Some(
            ReceiveProgress { bytes_received: (p.bytes_received + sum_reads(reads)) as u64, total_bytes: p.total_bytes },
        ),
    decreases reads.len(),
{
    if reads.len() > 0 {
        let d = reads.drop_last();
        assert forall|i: int| 0 <= i < d.len() implies #[trigger] d[i] > 0 by {
            assert(d[i] == reads[i]);
        }
        assert(reads.last() == reads[reads.len() - 1]);
        assert(sum_reads(reads) == sum_reads(d) + reads.last());
        progress_sums_the_reads(p, d);
    } else {
        assert(sum_reads(reads) == 0);
        assert(p == ReceiveProgress { bytes_received: (p.bytes_received + 0) as u64, total_bytes: p.total_bytes });
    }
}

/// Along reads of sizes n1, ..., nk, none empty, the progress published
/// after read j counts n1 + ... + nj bytes with the announced size kept, so
/// the count grows strictly from one read to the next.
pub proof fn progress_after_every_read(p: ReceiveProgress, reads: Seq<usize>)
    requires
        forall|i: int| 0 <= i < reads.len() ==> #[trigger] reads[i] > 0,
        p.bytes_received + sum_reads(reads) <= u64::MAX,
    ensures
        forall|j: int|
            0 <= j <= reads.len() ==> #[trigger] progress_after_all(p, reads.take(j)) == Some(
                ReceiveProgress {
                    bytes_received: (p.bytes_received + sum_reads(reads.take(j))) as u64,
                    total_bytes: p.total_bytes,
                },
            ),
        forall|j: int| 0 < j <= reads.len() ==> sum_reads(reads.take(j - 1)) < #[trigger] sum_reads(reads.take(j)),
{
    assert forall|j: int| 0 < j <= reads.len() implies sum_reads(reads.take(j - 1)) < #[trigger] sum_reads(reads.take(j)) by {
        assert(reads.take(j).drop_last() =~= reads.take(j - 1));
        assert(reads.take(j).last() == reads[j - 1]);
    }
    assert forall|j: int| 0 <= j <= reads.len() implies #[trigger] progress_after_all(p, reads.take(j)) == Some(
        ReceiveProgress {
            bytes_received: (p.bytes_received + sum_reads(reads.take(j))) as u64,
            total_bytes: p.total_bytes,
        },
    ) by {
        lemma_sum_prefix(reads, j);
        assert forall|i: int| 0 <= i < reads.take(j).len() implies #[trigger] reads.take(j)[i] > 0 by {
            assert(reads.take(j)[i] == reads[i]);
        }
        progress_sums_the_reads(p, reads.take(j));
    }
}

proof fn lemma_sum_prefix(reads: Seq<usize>, j: int)
    requires
        0 <= j <= reads.len(),
    ensures
        sum_reads(reads.take(j)) <= sum_reads(reads),
    decreases reads.len(),
{
    if j < reads.len() {
        assert(reads.drop_last().take(j) =~= reads.take(j));
        lemma_sum_prefix(reads.drop_last(), j);
    } else {
        assert(reads.take(j) =~= reads);
    }
}

/// The chunks one after the other.
pub open spec fn concat_chunks(chunks: Seq<Seq<u8>>) -> Seq<u8>
    decreases chunks.len(),
{
    if chunks.len() == 0 {
        Seq::empty()
    } else {
        concat_chunks(chunks.drop_last()) + chunks.last()
    }
}

/// A digest that goes through the states `ds`, empty at first (as
/// `StreamDigest::start` leaves it) and taking in chunk `i` between states
/// `i` and `i + 1` (as `StreamDigest::absorb` does), has taken in the chunks
/// one after the other; so what `finish` gives at the end is the SHA-256 of
/// the whole stream.
pub proof fn digest_sums_the_chunks(ds: Seq<StreamDigest>, chunks: Seq<Seq<u8>>)
    requires
        ds.len() == chunks.len() + 1,
        digest_input(ds[0]) == Seq::<u8>::empty(),
        forall|i: int| #![trigger chunks[i]] 0 <= i < chunks.len() ==> digest_input(ds[i + 1]) == digest_input(ds[i]) + chunks[i],
    ensures
        digest_input(ds.last()) == concat_chunks(chunks),
        sha256_of(digest_input(ds.last())) == sha256_of(concat_chunks(chunks)),
    decreases chunks.len(),
{
    if chunks.len() > 0 {
        let d = ds.drop_last();
        let c = chunks.drop_last();
        assert forall|i: int| #![trigger c[i]] 0 <= i < c.len() implies digest_input(d[i + 1]) == digest_input(d[i]) + c[i] by {
            assert(chunks[i] == c[i]);
        }
        digest_sums_the_chunks(d, c);
        let k = chunks.len() - 1;
        assert(chunks[k] == chunks.last());
        assert(d.last() == ds[k]);
        assert(ds.last() == ds[k + 1]);
    } else {
        assert(ds.last() == ds[0]);
    }
}

/// One read of the receiving loop: the bytes read join the digest and the
/// progress moves on, or, at the end of the stream, nothing changes and
/// `None` says to stop.
pub fn absorb_read(progress: &ReceiveProgress, digest: &mut StreamDigest, buf: &[u8], read: Option<usize>) -> (r: Option<ReceiveProgress>)
    requires
        read matches Some(n) ==> n <= buf@.len() && progress.bytes_received + n <= u64::MAX,
    ensures
        r == progress_after(*progress, read),
        match read {
            Some(n) => if n > 0 {
                digest_input(*final(digest)) == digest_input(*old(digest)) + buf@.take(n as int)
            } else {
                digest_input(*final(digest)) == digest_input(*old(digest))
            },
            None => digest_input(*final(digest)) == digest_input(*old(digest)),
        },
{
    let next = progress.after_read(read);
    if let Some(n) = read {
        if n > 0 {
            let chunk = crate::digest::prefix(buf, n);
            digest.absorb(chunk.as_slice());
        }
    }
    next
}

/// One read of the sending loop: the bytes read join the digest and the
/// total grows, or, at the end of the file, nothing changes and `None` says
/// to stop.
pub fn absorb_sent(total: u64, digest: &mut StreamDigest, buf: &[u8], n: usize) -> (r: Option<u64>)
    requires
        n <= buf@.len(),
        total + n <= u64::MAX,
    ensures
        r == total_after(total, Some(n)),
        n > 0 ==> digest_input(*final(digest)) == digest_input(*old(digest)) + buf@.take(n as int),
        n == 0 ==> digest_input(*final(digest)) == digest_input(*old(digest)),
{
    let next = next_total(total, Some(n));
    if n > 0 {
        let chunk = crate::digest::prefix(buf, n);
        digest.absorb(chunk.as_slice());
    }
    next
}

impl ReceiveProgress {
    /// No byte received yet of a download of the announced size.
    pub fn start(total_bytes: Option<u64>) -> (r: ReceiveProgress)
        ensures
            r.bytes_received == 0,
            r.total_bytes == total_bytes,
    {
        ReceiveProgress { bytes_received: 0, total_bytes }
    }

    /// The progress to publish after a read of `read` bytes; `None` when the
    /// stream has ended and the receiver stops reading.
    pub fn after_read(&self, read: Option<usize>) -> (r: Option<ReceiveProgress>)
        requires
            read matches Some(n) ==> self.bytes_received + n <= u64::MAX,
        ensures
            r == progress_after(*self, read),
    {
        match next_total(self.bytes_received, read) {
            None => None,
            Some(t) => Some(ReceiveProgress { bytes_received: t, total_bytes: self.total_bytes }),
        }
    }
}

} // verus!
