//! The buffer that batches calls. Each queued call is an operation code of one
//! byte, and codes are packed four to a little-endian `u32` word. The
//! JavaScript side reads a word, dispatches on its low byte, shifts the word
//! right by a byte, and so on until it meets the code that ends a message.
use vstd::prelude::*;
use vstd::arithmetic::power2::lemma2_to64;
use vstd::arithmetic::div_mod::lemma_fundamental_div_mod;
use crate::bits::{low_mask_u32, reads_per_word};

verus! {

/// What a channel needs to know of its bindings: the width of a code, how many
/// codes a word holds, the code that ends a message and the code that does
/// nothing (used to fill a word).
pub struct ChannelLayout {
    pub op_size: usize,
    pub reads_per_u32: usize,
    pub end_msg: u8,
    pub no_op: u8,
}

impl ChannelLayout {
    /// One byte per code, four codes per word, and the fill code right after
    /// the end code, above every function's code.
    pub open spec fn wf(self) -> bool {
        &&& self.op_size == 8
        &&& self.reads_per_u32 == 4
        &&& self.no_op == self.end_msg + 1
    }
}

/// The little-endian `u32` word `w` of `bytes`, as `DataView.getUint32(4 * w, true)`.
pub open spec fn word_at(bytes: Seq<u8>, w: int) -> u32 {
    (bytes[4 * w] as u32) | ((bytes[4 * w + 1] as u32) << 8u32) | ((bytes[4 * w + 2] as u32)
        << 16u32) | ((bytes[4 * w + 3] as u32) << 24u32)
}

/// Code `j` as the JavaScript reader sees it: the `j % reads_per_u32`-th group of
/// `op_size` bits, from the low end, of word `j / reads_per_u32`.
pub open spec fn js_slot(bytes: Seq<u8>, op_size: nat, j: int) -> u8 {
    let rpu = reads_per_word(op_size) as int;
    let w = j / rpu;
    let k = j % rpu;
    ((word_at(bytes, w) >> ((k * op_size) as u32)) & low_mask_u32(op_size)) as u8
}

/// All codes of `bytes` in the order the JavaScript reader takes them.
pub open spec fn js_slots(bytes: Seq<u8>, op_size: nat) -> Seq<u8> {
    Seq::new(
        (bytes.len() / 4) * reads_per_word(op_size),
        |j: int| js_slot(bytes, op_size, j),
    )
}

/// The calls that the JavaScript dispatch loop makes on `codes`: a code below
/// `end_msg` calls that function, `end_msg` ends the run, a larger code
/// matches no case and does nothing. `None` when no `end_msg` comes, where the
/// reader would run past the message.
pub open spec fn run_codes(codes: Seq<u8>, end_msg: u8) -> Option<Seq<u8>>
    decreases codes.len(),
{
    if codes.len() == 0 {
        None
    } else if codes[0] == end_msg {
        Some(Seq::empty())
    } else {
        match run_codes(codes.drop_first(), end_msg) {
            Some(rest) => Some(if codes[0] < end_msg { seq![codes[0]] + rest } else { rest }),
            None => None,
        }
    }
}

/// The calls that JavaScript makes when it runs the message `bytes`, read in
/// codes of `op_size` bits.
pub open spec fn js_run(bytes: Seq<u8>, op_size: nat, end_msg: u8) -> Option<Seq<u8>> {
    run_codes(js_slots(bytes, op_size), end_msg)
}

/// `bytes` followed by a new word of zeros.
pub open spec fn with_new_word(bytes: Seq<u8>) -> Seq<u8> {
    bytes + seq![0u8, 0u8, 0u8, 0u8]
}

/// `n` fill codes `no_op`.
pub open spec fn fill(n: nat, no_op: u8) -> Seq<u8> {
    Seq::new(n, |i: int| no_op)
}

proof fn lemma_run_ends(codes: Seq<u8>, end_msg: u8)
    ensures
        run_codes(codes.push(end_msg), end_msg) is Some,
    decreases codes.len(),
{
    if codes.len() > 0 && codes[0] != end_msg {
        assert(codes.push(end_msg).drop_first() =~= codes.drop_first().push(end_msg));
        lemma_run_ends(codes.drop_first(), end_msg);
    }
}

proof fn lemma_run_prefix(a: Seq<u8>, b: Seq<u8>, end_msg: u8)
    requires
        run_codes(a, end_msg) is Some,
    ensures
        run_codes(a + b, end_msg) == run_codes(a, end_msg),
    decreases a.len(),
{
    assert((a + b)[0] == a[0]);
    if a[0] != end_msg {
        assert((a + b).drop_first() =~= a.drop_first() + b);
        lemma_run_prefix(a.drop_first(), b, end_msg);
    }
}

/// A run of codes that ends with `end_msg` and holds no other `end_msg` makes
/// the calls of the codes below `end_msg`, in order, and stops there: codes
/// above it (the fill code) are skipped.
pub proof fn lemma_run_calls_in_order(codes: Seq<u8>, end_msg: u8)
    requires
        forall|i: int| 0 <= i < codes.len() ==> codes[i] != end_msg,
    ensures
        run_codes(codes.push(end_msg), end_msg) == Some(codes.filter(|c: u8| c < end_msg)),
    decreases codes.len(),
{
    reveal(Seq::filter);
    let p = |c: u8| c < end_msg;
    if codes.len() == 0 {
        assert(codes.push(end_msg)[0] == end_msg);
    } else {
        let rest = codes.drop_first();
        assert(codes.push(end_msg).drop_first() =~= rest.push(end_msg));
        assert forall|i: int| 0 <= i < rest.len() implies rest[i] != end_msg by {
            assert(rest[i] == codes[i + 1]);
        }
        lemma_run_calls_in_order(rest, end_msg);
        assert(codes =~= seq![codes[0]] + rest);
        rest.lemma_filter_prepend(codes[0], p);
        assert(codes.push(end_msg)[0] == codes[0]);
    }
}

/// When every queued code is a function's code (below `end_msg`), a run
/// that ends with `end_msg` calls exactly those functions, in order.
pub proof fn lemma_run_function_calls(codes: Seq<u8>, end_msg: u8)
    requires
        forall|i: int| 0 <= i < codes.len() ==> codes[i] < end_msg,
    ensures
        run_codes(codes.push(end_msg), end_msg) == Some(codes),
    decreases codes.len(),
{
    if codes.len() == 0 {
        assert(codes.push(end_msg)[0] == end_msg);
    } else {
        let rest = codes.drop_first();
        assert(codes.push(end_msg).drop_first() =~= rest.push(end_msg));
        assert forall|i: int| 0 <= i < rest.len() implies rest[i] < end_msg by {
            assert(rest[i] == codes[i + 1]);
        }
        lemma_run_function_calls(rest, end_msg);
        assert(codes =~= seq![codes[0]] + rest);
        assert(codes.push(end_msg)[0] == codes[0]);
    }
}

/// Fill codes between two batches are skipped: when the calls of one batch,
/// `k` fill codes, and the calls of another are run up to the end code, the
/// calls made are those of the first batch, then those of the second. The fill
/// code must differ from the end code and not be a function's code, so it is
/// above `end_msg`.
pub proof fn lemma_fill_codes_are_skipped(
    first: Seq<u8>,
    k: nat,
    second: Seq<u8>,
    no_op: u8,
    end_msg: u8,
)
    requires
        end_msg < no_op,
        forall|i: int| 0 <= i < first.len() ==> first[i] < end_msg,
        forall|i: int| 0 <= i < second.len() ==> second[i] < end_msg,
    ensures
        run_codes((first + fill(k, no_op) + second).push(end_msg), end_msg) == Some(
            first + second,
        ),
    decreases first.len(),
{
    if first.len() == 0 {
        lemma_skip_fill(k, second, no_op, end_msg);
        assert(first + fill(k, no_op) + second =~= fill(k, no_op) + second);
        assert(first + second =~= second);
    } else {
        let all = (first + fill(k, no_op) + second).push(end_msg);
        let rest = first.drop_first();
        assert(all.drop_first() =~= (rest + fill(k, no_op) + second).push(end_msg));
        assert forall|i: int| 0 <= i < rest.len() implies rest[i] < end_msg by {
            assert(rest[i] == first[i + 1]);
        }
        lemma_fill_codes_are_skipped(rest, k, second, no_op, end_msg);
        assert(all[0] == first[0]);
        assert(first + second =~= seq![first[0]] + (rest + second));
    }
}

proof fn lemma_skip_fill(k: nat, second: Seq<u8>, no_op: u8, end_msg: u8)
    requires
        end_msg < no_op,
        forall|i: int| 0 <= i < second.len() ==> second[i] < end_msg,
    ensures
        run_codes((fill(k, no_op) + second).push(end_msg), end_msg) == Some(second),
    decreases k,
{
    if k == 0 {
        assert(fill(k, no_op) + second =~= second);
        lemma_run_function_calls(second, end_msg);
    } else {
        let all = (fill(k, no_op) + second).push(end_msg);
        assert(all[0] == no_op);
        assert(all.drop_first() =~= (fill((k - 1) as nat, no_op) + second).push(end_msg));
        lemma_skip_fill((k - 1) as nat, second, no_op, end_msg);
    }
}

proof fn lemma_word_bytes(b0: u8, b1: u8, b2: u8, b3: u8, word: u32)
    requires
        word == (b0 as u32) | ((b1 as u32) << 8u32) | ((b2 as u32) << 16u32) | ((b3 as u32)
            << 24u32),
    ensures
        ((word >> 0u32) & 255u32) as u8 == b0,
        ((word >> 8u32) & 255u32) as u8 == b1,
        ((word >> 16u32) & 255u32) as u8 == b2,
        ((word >> 24u32) & 255u32) as u8 == b3,
{
    assert(((word >> 0u32) & 255u32) as u8 == b0 && ((word >> 8u32) & 255u32) as u8 == b1
        && ((word >> 16u32) & 255u32) as u8 == b2 && ((word >> 24u32) & 255u32) as u8 == b3)
        by (bit_vector)
        requires
            word == (b0 as u32) | ((b1 as u32) << 8u32) | ((b2 as u32) << 16u32) | ((b3 as u32)
                << 24u32),
    ;
}

/// The JavaScript reader, which takes a little-endian word and shifts bytes
/// off its low end, sees the message's bytes in order.
pub proof fn lemma_js_reads_bytes(bytes: Seq<u8>)
    requires
        bytes.len() % 4 == 0,
    ensures
        js_slots(bytes, 8) == bytes,
{
    lemma2_to64();
    assert(reads_per_word(8) == 4);
    assert(low_mask_u32(8) == 255);
    lemma_fundamental_div_mod(bytes.len() as int, 4);
    assert(js_slots(bytes, 8).len() == bytes.len());
    assert forall|j: int| 0 <= j < bytes.len() implies #[trigger] js_slots(bytes, 8)[j]
        == bytes[j] by {
        let w = j / 4;
        let k = j % 4;
        lemma_fundamental_div_mod(j, 4);
        assert(j == 4 * w + k);
        assert(0 <= w && 4 * w + 3 < bytes.len());
        lemma_word_bytes(
            bytes[4 * w],
            bytes[4 * w + 1],
            bytes[4 * w + 2],
            bytes[4 * w + 3],
            word_at(bytes, w),
        );
        assert(k == 0 || k == 1 || k == 2 || k == 3);
    }
    assert(js_slots(bytes, 8) =~= bytes);
}

/// The reader of a message whose first codes are `queued` runs those codes:
/// once they end with the end code, the bytes after them are never read.
proof fn lemma_js_run_of_prefix(message: Seq<u8>, queued: Seq<u8>, end_msg: u8)
    requires
        message.len() % 4 == 0,
        queued.len() <= message.len(),
        queued == message.take(queued.len() as int),
        run_codes(queued, end_msg) is Some,
    ensures
        js_run(message, 8, end_msg) == run_codes(queued, end_msg),
{
    lemma_js_reads_bytes(message);
    assert(message =~= queued + message.skip(queued.len() as int));
    lemma_run_prefix(queued, message.skip(queued.len() as int), end_msg);
}

/// A batch of queued calls: `msg` is a whole number of words, the word being
/// filled starts at `current_op_batch_idx`, and `current_op_byte_idx` codes of
/// it are used (`reads_per_u32` when a new word must be started).
pub struct Channel {
    pub msg: Vec<u8>,
    pub current_op_batch_idx: usize,
    pub current_op_byte_idx: usize,
    pub layout: ChannelLayout,
}

impl Channel {
    /// Every index that `encode_op` stores to lies inside the message.
    pub open spec fn wf(self) -> bool {
        &&& self.layout.wf()
        &&& self.msg@.len() % 4 == 0
        &&& self.current_op_byte_idx <= self.layout.reads_per_u32
        &&& self.current_op_batch_idx <= self.msg@.len()
        &&& self.msg@.len() == 0 ==> self.current_op_byte_idx == self.layout.reads_per_u32
        &&& self.current_op_byte_idx < self.layout.reads_per_u32 ==> self.current_op_batch_idx
            + 4 == self.msg@.len()
    }

    /// Number of codes queued so far (fill codes included).
    pub open spec fn written(self) -> nat {
        (self.msg@.len() + self.current_op_byte_idx - self.layout.reads_per_u32) as nat
    }

    /// The codes queued so far, in order.
    pub open spec fn queued(self) -> Seq<u8> {
        self.msg@.take(self.written() as int)
    }

    /// The bytes after `op` is queued: a new zeroed word first when the
    /// current one is full.
    pub open spec fn bytes_after_op(self, op: u8) -> Seq<u8> {
        if self.current_op_byte_idx >= self.layout.reads_per_u32 {
            with_new_word(self.msg@).update(self.msg@.len() as int, op)
        } else {
            self.msg@.update(self.current_op_batch_idx + self.current_op_byte_idx, op)
        }
    }

    /// The bytes after the rest of the current word is filled with the code
    /// that does nothing.
    pub open spec fn padded(self) -> Seq<u8> {
        if self.current_op_byte_idx < self.layout.reads_per_u32 {
            self.msg@.take(self.current_op_batch_idx + self.current_op_byte_idx) + fill(
                (self.layout.reads_per_u32 - self.current_op_byte_idx) as nat,
                self.layout.no_op,
            )
        } else {
            self.msg@
        }
    }

    /// An empty channel, as the generated `Default` makes it.
    pub fn new(layout: ChannelLayout) -> (c: Channel)
        requires
            layout.wf(),
        ensures
            c.wf(),
            c.layout == layout,
            c.msg@ == Seq::<u8>::empty(),
            c.current_op_batch_idx == 0,
            c.current_op_byte_idx == layout.reads_per_u32,
            c.queued() == Seq::<u8>::empty(),
    {
        let rpu = layout.reads_per_u32;
        Channel { msg: Vec::new(), current_op_batch_idx: 0, current_op_byte_idx: rpu, layout }
    }

    /// Queues the code `op`, starting a new zeroed word when the current one
    /// is full.
    pub fn encode_op(&mut self, op: u8)
        requires
            old(self).wf(),
            old(self).msg@.len() + 4 <= usize::MAX,
        ensures
            final(self).wf(),
            final(self).layout == old(self).layout,
            final(self).msg@ == old(self).bytes_after_op(op),
            old(self).current_op_byte_idx >= old(self).layout.reads_per_u32 ==> {
                &&& final(self).current_op_batch_idx == old(self).msg@.len()
                &&& final(self).current_op_byte_idx == 1
            },
            old(self).current_op_byte_idx < old(self).layout.reads_per_u32 ==> {
                &&& final(self).current_op_batch_idx == old(self).current_op_batch_idx
                &&& final(self).current_op_byte_idx == old(self).current_op_byte_idx + 1
            },
            final(self).queued() == old(self).queued().push(op),
    {
        if self.current_op_byte_idx >= self.layout.reads_per_u32 {
            self.current_op_batch_idx = self.msg.len();
            self.msg.push(0);
            self.msg.push(0);
            self.msg.push(0);
            self.msg.push(0);
            self.current_op_byte_idx = 0;
            assert(self.msg@ == with_new_word(old(self).msg@));
        }
        let byte_idx = self.current_op_byte_idx;
        let batch_idx = self.current_op_batch_idx;
        self.msg.set(batch_idx + byte_idx, op);
        self.current_op_byte_idx = byte_idx + 1;
        assert(self.queued() =~= old(self).queued().push(op));
    }

    /// Appends the calls queued in `batch`, after filling what is left of the
    /// current word with the code that does nothing, so that `batch` keeps
    /// its word alignment. When both channels hold only calls of functions,
    /// the calls after `append` are those of `self` followed by those of
    /// `batch`, whatever the number of functions.
    pub fn append(&mut self, batch: Channel)
        requires
            old(self).wf(),
            batch.wf(),
            batch.layout == old(self).layout,
            old(self).msg@.len() + batch.msg@.len() + 4 <= usize::MAX,
        ensures
            final(self).wf(),
            final(self).layout == old(self).layout,
            final(self).msg@ == old(self).padded() + batch.msg@,
            final(self).current_op_batch_idx == old(self).msg@.len() + batch.current_op_batch_idx,
            final(self).current_op_byte_idx == batch.current_op_byte_idx,
            final(self).queued() == old(self).queued() + fill(
                (old(self).layout.reads_per_u32 - old(self).current_op_byte_idx) as nat,
                old(self).layout.no_op,
            ) + batch.queued(),
            (forall|i: int|
                0 <= i < old(self).queued().len() ==> old(self).queued()[i]
                    < old(self).layout.end_msg) && (forall|i: int|
                0 <= i < batch.queued().len() ==> batch.queued()[i] < old(self).layout.end_msg)
                ==> run_codes(
                final(self).queued().push(old(self).layout.end_msg),
                old(self).layout.end_msg,
            ) == Some(old(self).queued() + batch.queued()),
    {
        let operations_left = self.layout.reads_per_u32 - self.current_op_byte_idx;
        let no_op = self.layout.no_op;
        let ghost start = old(self).current_op_batch_idx + old(self).current_op_byte_idx;
        let mut n: usize = 0;
        while n < operations_left
            invariant
                self.wf(),
                self.layout == old(self).layout,
                no_op == self.layout.no_op,
                start == old(self).current_op_batch_idx + old(self).current_op_byte_idx,
                n <= operations_left,
                operations_left == old(self).layout.reads_per_u32
                    - old(self).current_op_byte_idx,
                self.msg@.len() == old(self).msg@.len(),
                old(self).msg@.len() + batch.msg@.len() + 4 <= usize::MAX,
                self.current_op_byte_idx == old(self).current_op_byte_idx + n,
                operations_left > 0 ==> self.current_op_batch_idx
                    == old(self).current_op_batch_idx,
                operations_left > 0 ==> self.msg@ == old(self).msg@.take(start) + fill(
                    n as nat,
                    no_op,
                ) + old(self).msg@.skip(start + n),
                operations_left == 0 ==> self.msg@ == old(self).msg@,
                self.queued() == old(self).queued() + fill(n as nat, no_op),
            decreases operations_left - n,
        {
            let ghost before = self.msg@;
            assert(self.current_op_batch_idx + self.current_op_byte_idx == start + n);
            self.encode_op(no_op);
            assert(self.msg@ == before.update(start + n, no_op));
            assert(self.queued() =~= old(self).queued() + fill((n + 1) as nat, no_op));
            let ghost target = old(self).msg@.take(start) + fill((n + 1) as nat, no_op) + old(
                self,
            ).msg@.skip(start + n + 1);
            assert forall|i: int| 0 <= i < self.msg@.len() implies #[trigger] self.msg@[i]
                == target[i] by {
                if i < start {
                } else if i < start + n + 1 {
                } else {
                    assert(before[i] == old(self).msg@[i]);
                }
            }
            assert(self.msg@ =~= target);
            n = n + 1;
        }
        let ghost padded = self.msg@;
        assert(padded =~= old(self).padded());
        self.current_op_byte_idx = batch.current_op_byte_idx;
        self.current_op_batch_idx = self.msg.len() + batch.current_op_batch_idx;
        let mut other = batch.msg;
        self.msg.append(&mut other);
        proof {
            assert(self.msg@ == padded + batch.msg@);
            let k = (old(self).layout.reads_per_u32 - old(self).current_op_byte_idx) as nat;
            assert(self.queued() =~= old(self).queued() + fill(k, no_op) + batch.queued());
            if (forall|i: int|
                0 <= i < old(self).queued().len() ==> old(self).queued()[i]
                    < old(self).layout.end_msg) && (forall|i: int|
                0 <= i < batch.queued().len() ==> batch.queued()[i] < old(self).layout.end_msg) {
                lemma_fill_codes_are_skipped(
                    old(self).queued(),
                    k,
                    batch.queued(),
                    no_op,
                    self.layout.end_msg,
                );
            }
        }
    }

    /// Ends the message with the code that stops the JavaScript reader, hands
    /// the message over and leaves the channel empty. JavaScript then makes
    /// the calls that `run_codes` gives for the queued codes followed by the
    /// end code: when every queued code is a function's code, exactly the
    /// queued calls, in order.
    pub fn flush(&mut self) -> (message: Vec<u8>)
        requires
            old(self).wf(),
            old(self).msg@.len() + 4 <= usize::MAX,
        ensures
            message@ == old(self).bytes_after_op(old(self).layout.end_msg),
            final(self).wf(),
            final(self).layout == old(self).layout,
            final(self).msg@ == Seq::<u8>::empty(),
            final(self).current_op_batch_idx == 0,
            final(self).current_op_byte_idx == old(self).layout.reads_per_u32,
            js_run(message@, 8, old(self).layout.end_msg) == run_codes(
                old(self).queued().push(old(self).layout.end_msg),
                old(self).layout.end_msg,
            ),
            (forall|i: int|
                0 <= i < old(self).queued().len() ==> old(self).queued()[i]
                    < old(self).layout.end_msg) ==> js_run(
                message@,
                8,
                old(self).layout.end_msg,
            ) == Some(old(self).queued()),
    {
        let end_msg = self.layout.end_msg;
        self.encode_op(end_msg);
        let ghost full = *self;
        let mut message: Vec<u8> = Vec::new();
        std::mem::swap(&mut message, &mut self.msg);
        self.current_op_batch_idx = 0;
        self.current_op_byte_idx = self.layout.reads_per_u32;
        proof {
            assert(full.queued() == old(self).queued().push(end_msg));
            lemma_run_ends(old(self).queued(), end_msg);
            lemma_js_run_of_prefix(message@, full.queued(), end_msg);
            if forall|i: int|
                0 <= i < old(self).queued().len() ==> old(self).queued()[i] < end_msg {
                lemma_run_function_calls(old(self).queued(), end_msg);
            }
        }
        message
    }
}

} // verus!
