use vstd::prelude::*;
use vstd::utf8::encode_utf8;
use crate::item::{LogItem, NORMAL_LOG_SIZE};

verus! {

/// Once more than this many bytes are pending, they are handed out for writing.
pub const BUFFER_SIZE: usize = 16384;

/// One step of collecting: `bytes` join the pending bytes; if the result is
/// longer than `BUFFER_SIZE` it is all handed out for writing and nothing stays
/// pending. Gives the new pending bytes and what is to be written, if anything.
pub open spec fn collect(pending: Seq<u8>, bytes: Seq<u8>) -> (Seq<u8>, Option<Seq<u8>>) {
    let joined = pending + bytes;
    if joined.len() > BUFFER_SIZE {
        (Seq::empty(), Some(joined))
    } else {
        (joined, None)
    }
}

/// A collecting step hands out whole: once more than `BUFFER_SIZE` bytes are
/// pending, what it hands out is every pending byte followed by every added
/// byte, and nothing stays pending; up to `BUFFER_SIZE` bytes, it hands out
/// nothing and all of them stay pending, added bytes last.
pub proof fn lemma_collect_hands_out_whole(pending: Seq<u8>, bytes: Seq<u8>)
    ensures
        pending.len() + bytes.len() > BUFFER_SIZE ==> collect(pending, bytes).0.len() == 0
            && collect(pending, bytes).1 == Some(pending + bytes),
        pending.len() + bytes.len() <= BUFFER_SIZE ==> collect(pending, bytes).0 == pending + bytes
            && collect(pending, bytes).1 is None,
        forall|chunk: Seq<u8>|
            collect(pending, bytes).1 == Some(chunk) ==> chunk.subrange(0, pending.len() as int)
                == pending && chunk.subrange(pending.len() as int, chunk.len() as int) == bytes,
{
    let joined = pending + bytes;
    assert(joined.subrange(0, pending.len() as int) =~= pending);
    assert(joined.subrange(pending.len() as int, joined.len() as int) =~= bytes);
}

/// Bytes that a logging call hands out for writing, as a plain sequence.
pub open spec fn written_bytes(out: Option<Seq<u8>>) -> Seq<u8> {
    match out {
        Some(bytes) => bytes,
        None => Seq::empty(),
    }
}

/// The bytes of `out`, a chunk a logging call handed out, if any.
pub open spec fn chunk_view(out: Option<Vec<u8>>) -> Option<Seq<u8>> {
    match out {
        Some(bytes) => Some(bytes@),
        None => None,
    }
}

/// The buffer in which log lines wait until enough of them have gathered to be
/// written in one go.
pub struct Collector {
    buffer: Vec<u8>,
}

impl View for Collector {
    type V = Seq<u8>;

    /// The pending bytes, not yet handed out for writing.
    closed spec fn view(&self) -> Seq<u8> {
        self.buffer@
    }
}

impl Collector {
    /// A collector with nothing pending.
    pub fn new() -> (collector: Self)
        ensures
            collector@ == Seq::<u8>::empty(),
    {
        Collector { buffer: Vec::with_capacity(BUFFER_SIZE + NORMAL_LOG_SIZE) }
    }

    /// Hands out every pending byte, leaving nothing pending.
    fn take_pending(&mut self) -> (bytes: Vec<u8>)
        ensures
            bytes@ == old(self)@,
            final(self)@ == Seq::<u8>::empty(),
    {
        let mut bytes: Vec<u8> = Vec::with_capacity(BUFFER_SIZE + NORMAL_LOG_SIZE);
        std::mem::swap(&mut bytes, &mut self.buffer);
        bytes
    }

    /// Hands out the pending bytes if there are more than `BUFFER_SIZE` of them.
    fn take_if_full(&mut self) -> (out: Option<Vec<u8>>)
        ensures
            old(self)@.len() > BUFFER_SIZE ==> final(self)@ == Seq::<u8>::empty() && chunk_view(
                out,
            ) == Some(old(self)@),
            old(self)@.len() <= BUFFER_SIZE ==> final(self)@ == old(self)@ && out is None,
    {
        if self.buffer.len() > BUFFER_SIZE {
            Some(self.take_pending())
        } else {
            None
        }
    }
}

/// Adds the bytes of `item` to the pending bytes of `collector`. Returns
/// the chunk to write when more than `BUFFER_SIZE` bytes are then pending; the
/// collector is then empty.
pub fn log(collector: &mut Collector, item: LogItem) -> (written: Option<Vec<u8>>)
    ensures
        (final(collector)@, chunk_view(written)) == collect(old(collector)@, item@),
        final(collector)@.len() <= BUFFER_SIZE,
        old(collector)@.len() + item@.len() > BUFFER_SIZE ==> final(collector)@ == Seq::<u8>::empty()
            && chunk_view(written) == Some(old(collector)@ + item@),
        old(collector)@.len() + item@.len() <= BUFFER_SIZE ==> final(collector)@ == old(collector)@
            + item@ && written is None,
        written matches Some(chunk) ==> chunk@.len() > BUFFER_SIZE,
{
    let mut bytes = item.into_content();
    collector.buffer.append(&mut bytes);
    collector.take_if_full()
}

/// Adds the UTF-8 bytes of `content` to the pending bytes of `collector`,
/// as `log` does with the bytes of an item.
pub fn log_str(collector: &mut Collector, content: &str) -> (written: Option<Vec<u8>>)
    ensures
        (final(collector)@, chunk_view(written)) == collect(old(collector)@, encode_utf8(content@)),
        final(collector)@.len() <= BUFFER_SIZE,
        old(collector)@.len() + encode_utf8(content@).len() > BUFFER_SIZE ==> final(collector)@ == Seq::<u8>::empty()
            && chunk_view(written) == Some(old(collector)@ + encode_utf8(content@)),
        old(collector)@.len() + encode_utf8(content@).len() <= BUFFER_SIZE ==> final(collector)@ == old(collector)@
            + encode_utf8(content@) && written is None,
        written matches Some(chunk) ==> chunk@.len() > BUFFER_SIZE,
{
    collector.buffer.extend_from_slice(content.as_bytes());
    proof {
        assert(collector.buffer@ =~= old(collector)@ + encode_utf8(content@));
    }
    collector.take_if_full()
}

/// Hands out every pending byte for writing, however few; nothing stays pending.
pub fn flush(collector: &mut Collector) -> (written: Vec<u8>)
    ensures
        written@ == old(collector)@,
        final(collector)@ == Seq::<u8>::empty(),
{
    collector.take_pending()
}

/// All of `items`, one after the other.
pub open spec fn concat(items: Seq<Seq<u8>>) -> Seq<u8>
    decreases items.len(),
{
    if items.len() == 0 {
        Seq::empty()
    } else {
        concat(items.drop_last()) + items.last()
    }
}

/// Logging `items` in order, starting from `pending` pending bytes: gives the
/// bytes then pending and all the bytes handed out for writing, in order.
pub open spec fn run(pending: Seq<u8>, items: Seq<Seq<u8>>) -> (Seq<u8>, Seq<u8>)
    decreases items.len(),
{
    if items.len() == 0 {
        (pending, Seq::empty())
    } else {
        let before = run(pending, items.drop_last());
        let step = collect(before.0, items.last());
        (step.0, before.1 + written_bytes(step.1))
    }
}

/// No byte is lost or reordered: what logging `items` hands out for writing,
/// followed by what is then pending (which `flush` hands out), is exactly the
/// bytes that were pending before followed by all the items in order.
pub proof fn lemma_run_keeps_every_byte(pending: Seq<u8>, items: Seq<Seq<u8>>)
    ensures
        run(pending, items).1 + run(pending, items).0 == pending + concat(items),
    decreases items.len(),
{
    if items.len() == 0 {
        assert(Seq::<u8>::empty() + pending =~= pending + Seq::<u8>::empty());
    } else {
        lemma_run_keeps_every_byte(pending, items.drop_last());
        let before = run(pending, items.drop_last());
        let joined = before.0 + items.last();
        assert(concat(items) == concat(items.drop_last()) + items.last());
        assert(before.1 + joined =~= (before.1 + before.0) + items.last());
        assert(pending + concat(items) =~= (pending + concat(items.drop_last())) + items.last());
        if joined.len() > BUFFER_SIZE {
            assert(before.1 + joined + Seq::<u8>::empty() =~= before.1 + joined);
        } else {
            assert(before.1 + Seq::<u8>::empty() =~= before.1);
        }
    }
}

/// After any sequence of log calls at most `BUFFER_SIZE` bytes are pending.
pub proof fn lemma_run_pending_bounded(pending: Seq<u8>, items: Seq<Seq<u8>>)
    requires
        pending.len() <= BUFFER_SIZE,
    ensures
        run(pending, items).0.len() <= BUFFER_SIZE,
    decreases items.len(),
{
    if items.len() > 0 {
        lemma_run_pending_bounded(pending, items.drop_last());
    }
}

/// As long as everything logged fits in `BUFFER_SIZE` bytes, nothing is written:
/// all of it stays pending, in order.
pub proof fn lemma_run_buffers_small_logs(pending: Seq<u8>, items: Seq<Seq<u8>>)
    requires
        pending.len() + concat(items).len() <= BUFFER_SIZE,
    ensures
        run(pending, items).0 == pending + concat(items),
        run(pending, items).1 == Seq::<u8>::empty(),
    decreases items.len(),
{
    if items.len() > 0 {
        lemma_run_buffers_small_logs(pending, items.drop_last());
        assert(pending + concat(items.drop_last()) + items.last() =~= pending + concat(items));
        assert(Seq::<u8>::empty() + Seq::<u8>::empty() =~= Seq::<u8>::empty());
    } else {
        assert(pending + Seq::<u8>::empty() =~= pending);
    }
}

/// `log_str(content)` does to a collector what `log` does with the item that
/// `LogItem::new` followed by `LogItem::str(content)` builds: `item_bytes`,
/// the bytes of that item by those functions' contracts, make the same
/// collecting step as the UTF-8 bytes of `content` that `log_str` adds.
pub proof fn lemma_log_str_is_log_of_str_item(
    pending: Seq<u8>,
    content: Seq<char>,
    item_bytes: Seq<u8>,
)
    requires
        item_bytes == Seq::<u8>::empty() + encode_utf8(content),
    ensures
        collect(pending, item_bytes) == collect(pending, encode_utf8(content)),
{
    assert(Seq::<u8>::empty() + encode_utf8(content) =~= encode_utf8(content));
}

} // verus!
