//! The stream operations that the buffered types are built on, and the few
//! calls into `std::io` that they need.
use vstd::prelude::*;
use vstd::slice::slice_subrange;
use vstd::seq_lib::lemma_flatten_concat;
use vstd::string::StringSliceAdditionalSpecFns;

verus! {

#[verifier::external_type_specification]
#[verifier::external_body]
pub struct ExIoError(std::io::Error);

/// The kinds of error that this crate creates itself.
pub(crate) enum FailureKind {
    /// A writer accepted no bytes although there were bytes to write.
    WriteZero,
    /// Bytes that were read are not valid UTF-8.
    InvalidData,
}

/// Builds a `std::io::Error` of the given kind with the given message, by
/// `std::io::Error::new`. Nothing is stated of the value: `std::io::Error`
/// is opaque here.
#[verifier::external_body]
pub(crate) fn new_error(kind: FailureKind, msg: &str) -> std::io::Error {
    let kind = match kind {
        FailureKind::WriteZero => std::io::ErrorKind::WriteZero,
        FailureKind::InvalidData => std::io::ErrorKind::InvalidData,
    };
    std::io::Error::new(kind, msg.to_owned())
}

/// Whether `e.kind()` is `std::io::ErrorKind::Interrupted`: the kind of an
/// error is a value it holds, so the answer is a function of `e` alone.
pub uninterp spec fn interrupted(e: std::io::Error) -> bool;

/// Tells whether `e.kind()` is `std::io::ErrorKind::Interrupted`, by
/// `std::io::Error::kind`; the result is [`interrupted`] of `e`.
#[verifier::external_body]
pub(crate) fn is_interrupted(e: &std::io::Error) -> (r: bool)
    ensures
        r == interrupted(*e),
{
    e.kind() == std::io::ErrorKind::Interrupted
}

/// What a loop that writes out a whole buffer does next, after one call of
/// `write`.
pub(crate) enum WriteStep {
    /// The call accepted this many bytes, at least one: go on after them.
    Advance(usize),
    /// The call was interrupted: make it again.
    Retry,
    /// Stop, and fail with this error.
    Stop(std::io::Error),
}

/// Decides what a loop that writes out a whole buffer does with `r`, the
/// result of one call of `write`, after `retries` interrupted calls in a
/// row: accepted bytes move it on; a call that accepted nothing stops it
/// with a `WriteZero` error (built with `msg`); an interrupted call is made
/// again, up to `u64::MAX` times in a row; any other error stops it with
/// that error.
pub(crate) fn write_step(r: Result<usize, std::io::Error>, retries: u64, msg: &str) -> (s: WriteStep)
    ensures
        match r {
            Ok(n) => if n == 0 {
                s is Stop
            } else {
                s == WriteStep::Advance(n)
            },
            Err(e) => if interrupted(e) && retries < u64::MAX {
                s is Retry
            } else {
                s == WriteStep::Stop(e)
            },
        },
{
    match r {
        Ok(0) => WriteStep::Stop(new_error(FailureKind::WriteZero, msg)),
        Ok(n) => WriteStep::Advance(n),
        Err(e) => {
            if is_interrupted(&e) && retries < u64::MAX {
                WriteStep::Retry
            } else {
                WriteStep::Stop(e)
            }
        },
    }
}

/// Views `bytes` as a `str` by `std::str::from_utf8`: there is one exactly
/// when `bytes` are valid UTF-8, and its bytes are `bytes`.
#[verifier::external_body]
pub(crate) fn str_from_utf8(bytes: &[u8]) -> (r: Option<&str>)
    ensures
        r is Some <==> vstd::utf8::valid_utf8(bytes@),
        r matches Some(s) ==> s.spec_bytes() == bytes@,
{
    std::str::from_utf8(bytes).ok()
}

/// The number of bytes in all the buffers of `bufs` together.
pub open spec fn total_len(bufs: Seq<&[u8]>) -> int
    decreases bufs.len(),
{
    if bufs.len() == 0 {
        0
    } else {
        total_len(bufs.drop_last()) + bufs.last()@.len()
    }
}

/// The bytes of all the buffers of `bufs`, one after the other.
pub open spec fn concat_bufs(bufs: Seq<&[u8]>) -> Seq<u8>
    decreases bufs.len(),
{
    if bufs.len() == 0 {
        Seq::empty()
    } else {
        concat_bufs(bufs.drop_last()) + bufs.last()@
    }
}

/// One call made on a stream: what it was handed, and how it ended.
pub enum StreamCall {
    /// A read into `room` bytes of buffer space.
    Read { room: nat, outcome: Result<usize, std::io::Error> },
    /// A write that was offered the bytes `offered`.
    Write { offered: Seq<u8>, outcome: Result<usize, std::io::Error> },
    /// A flush.
    Flush { result: Result<(), std::io::Error> },
}

/// The calls made on a stream, in the order in which they were made.
pub type StreamCalls = Seq<StreamCall>;

/// `c` failed with the error `e`, or was a write that was offered bytes and
/// took none of them (which the buffered types report with an error of
/// their own, `e`).
pub open spec fn failed_with(c: StreamCall, e: std::io::Error) -> bool {
    match c {
        StreamCall::Read { outcome, .. } => outcome == Err::<usize, std::io::Error>(e),
        StreamCall::Write { offered, outcome } => outcome == Err::<usize, std::io::Error>(e) || (
        outcome == Ok::<usize, std::io::Error>(0) && offered.len() > 0),
        StreamCall::Flush { result } => result == Err::<(), std::io::Error>(e),
    }
}

/// The calls `after` are the calls `before` followed by more.
pub open spec fn extends(before: Seq<StreamCall>, after: Seq<StreamCall>) -> bool {
    &&& before.len() <= after.len()
    &&& forall|i: int| 0 <= i < before.len() ==> #[trigger] after[i] == before[i]
}

/// The calls in `after` that follow those in `before`.
pub open spec fn calls_since(before: Seq<StreamCall>, after: Seq<StreamCall>) -> Seq<StreamCall> {
    after.subrange(before.len() as int, after.len() as int)
}

/// After the calls `before`, calls were made, and the last of them failed
/// with `e` (or took none of the bytes it was offered).
pub open spec fn ended_in_failure(
    before: Seq<StreamCall>,
    after: Seq<StreamCall>,
    e: std::io::Error,
) -> bool {
    &&& extends(before, after)
    &&& after.len() > before.len()
    &&& failed_with(after.last(), e)
}

/// Calls that extend `before` and then gain one more call still extend
/// `before`, and the calls since `before` gain that call.
pub proof fn lemma_calls_push(before: Seq<StreamCall>, mid: Seq<StreamCall>, after: Seq<StreamCall>)
    requires
        extends(before, mid),
        after == mid.push(after.last()),
    ensures
        extends(before, after),
        extends(mid, after),
        calls_since(before, after) == calls_since(before, mid).push(after.last()),
{
    assert(calls_since(before, after) =~= calls_since(before, mid).push(after.last()));
}

/// `c` went through in full: it did not fail, and a write took all that it
/// was offered.
pub open spec fn went_through(c: StreamCall) -> bool {
    match c {
        StreamCall::Read { outcome, .. } => outcome is Ok,
        StreamCall::Write { offered, outcome } => outcome matches Ok(n) && n == offered.len(),
        StreamCall::Flush { result } => result is Ok,
    }
}

/// `c` is a write.
pub open spec fn is_write(c: StreamCall) -> bool {
    c is Write
}

/// What a stream has taken from writes and given by reads, call by call,
/// and how many times it was flushed; and what its reads will give and how
/// many of its calls will fail from now on.
pub struct StreamLog {
    /// The bytes that each successful `write` took, in order.
    pub writes: Seq<Seq<u8>>,
    /// The bytes that each successful `read` gave, in order.
    pub reads: Seq<Seq<u8>>,
    /// How many calls of `flush` succeeded.
    pub flushes: nat,
    /// What reads will give from now on, cut at the ends of the stream (the
    /// reads that give nothing into a non-empty buffer): entry `0` is what
    /// they give up to the next end, entry `k` what they give between the
    /// `k`th end and the one after it; `None` where reads never come to that
    /// end.
    pub ahead: spec_fn(nat) -> Option<Seq<u8>>,
    /// How many of the calls made on the stream from now on will fail;
    /// `None` when there is no such bound.
    pub faults: Option<nat>,
}

impl StreamLog {
    /// All the bytes that the stream has taken from writes, in order.
    pub open spec fn sent(self) -> Seq<u8> {
        self.writes.flatten()
    }

    /// The log after a `write` that took `bytes`.
    pub open spec fn wrote(self, bytes: Seq<u8>) -> StreamLog {
        StreamLog { writes: self.writes.push(bytes), ..self }
    }

    /// `bytes` can be what a `read` gives, into a buffer that is not empty
    /// when `asked`: the next bytes ahead, and nothing exactly at an end of
    /// the stream (or into an empty buffer).
    pub open spec fn can_read(self, asked: bool, bytes: Seq<u8>) -> bool {
        &&& !asked ==> bytes.len() == 0
        &&& asked ==> match (self.ahead)(0) {
            Some(u) => bytes.len() <= u.len() && bytes == u.subrange(0, bytes.len() as int) && (
            bytes.len() == 0 <==> u.len() == 0),
            None => bytes.len() > 0,
        }
    }

    /// The log after a `read`, into a buffer that is not empty when `asked`,
    /// that gave `bytes`: they are no longer ahead, and a read that gave
    /// nothing into a non-empty buffer passed an end of the stream.
    pub open spec fn read(self, asked: bool, bytes: Seq<u8>) -> StreamLog {
        StreamLog {
            reads: self.reads.push(bytes),
            ahead: if bytes.len() > 0 {
                |k: nat|
                    if k == 0 {
                        match (self.ahead)(0) {
                            Some(u) => Some(u.subrange(bytes.len() as int, u.len() as int)),
                            None => None,
                        }
                    } else {
                        (self.ahead)(k)
                    }
            } else if asked {
                |k: nat| (self.ahead)(k + 1)
            } else {
                self.ahead
            },
            ..self
        }
    }

    /// The log after a successful `flush`.
    pub open spec fn flushed(self) -> StreamLog {
        StreamLog { flushes: self.flushes + 1, ..self }
    }

    /// The log after a call that failed: one fault fewer is ahead.
    pub open spec fn failed(self) -> StreamLog {
        StreamLog {
            faults: match self.faults {
                Some(k) => Some((k - 1) as nat),
                None => None,
            },
            ..self
        }
    }

    /// A call may fail: not every call from now on succeeds.
    pub open spec fn may_fail(self) -> bool {
        self.faults != Some(0nat)
    }
}

/// A write that took `bytes` adds them to what the stream was sent.
pub proof fn lemma_sent_wrote(log: StreamLog, bytes: Seq<u8>)
    ensures
        log.wrote(bytes).sent() == log.sent() + bytes,
{
    log.writes.lemma_flatten_push(bytes);
}

/// Buffers that are all empty hold no bytes together.
pub proof fn lemma_flatten_all_empty(c: Seq<Seq<u8>>)
    requires
        forall|j: int| 0 <= j < c.len() ==> #[trigger] c[j].len() == 0,
    ensures
        c.flatten() == Seq::<u8>::empty(),
    decreases c.len(),
{
    if c.len() > 0 {
        assert forall|j: int| 0 <= j < c.drop_first().len() implies #[trigger] c.drop_first()[j].len()
            == 0 by {
            assert(c.drop_first()[j] == c[j + 1]);
        }
        lemma_flatten_all_empty(c.drop_first());
        assert(c[0].len() == 0);
        assert(c.flatten() =~= c[0] + c.drop_first().flatten());
    }
}

/// The bytes of `c` are those of the buffers before the `i`th, then those
/// of the `i`th, then those of the buffers after it.
pub proof fn lemma_flatten_around(c: Seq<Seq<u8>>, i: int)
    requires
        0 <= i < c.len(),
    ensures
        c.flatten() == c.subrange(0, i).flatten() + c[i] + c.subrange(i + 1, c.len() as int).flatten(),
{
    assert(c =~= c.subrange(0, i) + (seq![c[i]] + c.subrange(i + 1, c.len() as int)));
    lemma_flatten_concat(c.subrange(0, i), seq![c[i]] + c.subrange(i + 1, c.len() as int));
    lemma_flatten_concat(seq![c[i]], c.subrange(i + 1, c.len() as int));
    assert(seq![c[i]].flatten() == c[i]) by {
        seq![c[i]].lemma_flatten_one_element();
    }
    assert(c.flatten() =~= c.subrange(0, i).flatten() + c[i] + c.subrange(
        i + 1,
        c.len() as int,
    ).flatten());
}

/// The concatenation of slices is the flattening of their bytes.
pub proof fn lemma_concat_is_flatten(bufs: Seq<&[u8]>)
    ensures
        concat_bufs(bufs) == slices(bufs).flatten(),
    decreases bufs.len(),
{
    if bufs.len() > 0 {
        lemma_concat_is_flatten(bufs.drop_last());
        assert(slices(bufs) =~= slices(bufs.drop_last()).push(bufs.last()@));
        slices(bufs.drop_last()).lemma_flatten_push(bufs.last()@);
    } else {
        assert(slices(bufs) =~= Seq::<Seq<u8>>::empty());
    }
}

/// The bytes that each buffer of `bufs` holds.
pub open spec fn contents(bufs: Seq<&mut [u8]>) -> Seq<Seq<u8>> {
    bufs.map_values(|b: &mut [u8]| b@)
}

/// `after` is as many buffers as `before`, each as long as the one it
/// replaces.
pub open spec fn same_lengths(before: Seq<Seq<u8>>, after: Seq<Seq<u8>>) -> bool {
    &&& after.len() == before.len()
    &&& forall|k: int| 0 <= k < before.len() ==> #[trigger] after[k].len() == before[k].len()
}

/// The bytes that each buffer of `bufs` holds.
pub open spec fn slices(bufs: Seq<&[u8]>) -> Seq<Seq<u8>> {
    bufs.map_values(|b: &[u8]| b@)
}

/// `i` is the position of the first buffer of `s` that is not empty.
pub open spec fn first_filled(s: Seq<Seq<u8>>, i: int) -> bool {
    &&& 0 <= i < s.len()
    &&& s[i].len() > 0
    &&& forall|j: int| 0 <= j < i ==> #[trigger] s[j].len() == 0
}

/// `after` holds the same bytes as `before` in every buffer but the `i`th.
pub open spec fn others_kept(before: Seq<Seq<u8>>, after: Seq<Seq<u8>>, i: int) -> bool {
    &&& after.len() == before.len()
    &&& forall|k: int| 0 <= k < before.len() && k != i ==> #[trigger] after[k] == before[k]
}

/// The reading and writing half of an interactive stream, as the buffered
/// types of this crate drive it: a reader and a writer in one value.
///
/// Each implementation defines two models of its stream, `log` and
/// `calls`, and its methods promise how they change them. These promises
/// restate what `std::io::Read` and `std::io::Write` ask of their
/// implementors: a successful `read` or `write` reports at most as many
/// bytes as the buffer holds, and a call that fails has read or written no
/// bytes. An implementation outside verified code (one that hands the calls
/// on to a `std::io` reader and writer) is trusted to keep them; nothing
/// checks it.
pub trait HalfDuplexIo {
    /// What the stream has taken and given so far.
    spec fn log(&self) -> StreamLog;

    /// The calls made on the stream so far, each with what it was handed
    /// and how it ended.
    spec fn calls(&self) -> StreamCalls;

    /// Reads some bytes into `buf`, returning how many were read; `Ok(0)`
    /// means the end of the stream (or an empty `buf`).
    fn read(&mut self, buf: &mut [u8]) -> (r: Result<usize, std::io::Error>)
        ensures
            final(buf)@.len() == old(buf)@.len(),
            match r {
                Ok(n) => n <= old(buf)@.len() && old(self).log().can_read(
                    old(buf)@.len() > 0,
                    final(buf)@.subrange(0, n as int),
                ) && final(self).log() == old(self).log().read(
                    old(buf)@.len() > 0,
                    final(buf)@.subrange(0, n as int),
                ),
                Err(_) => old(self).log().may_fail() && final(self).log() == old(
                    self,
                ).log().failed(),
            },
            final(self).calls() == old(self).calls().push(
                (StreamCall::Read { room: old(buf)@.len() as nat, outcome: r }),
            ),
    ;

    /// Reads some bytes into the buffers of `bufs`, filling them in order,
    /// and returns how many were read. By default this reads into the first
    /// buffer that is not empty (into an empty buffer when there is none).
    fn read_vectored(&mut self, bufs: &mut [&mut [u8]]) -> (r: Result<usize, std::io::Error>)
        ensures
            same_lengths(contents(old(bufs)@), contents(final(bufs)@)),
            match r {
                Ok(n) => n <= contents(old(bufs)@).flatten().len() && old(self).log().can_read(
                    contents(old(bufs)@).flatten().len() > 0,
                    contents(final(bufs)@).flatten().subrange(0, n as int),
                ) && final(self).log() == old(self).log().read(
                    contents(old(bufs)@).flatten().len() > 0,
                    contents(final(bufs)@).flatten().subrange(0, n as int),
                ),
                Err(_) => old(self).log().may_fail() && final(self).log() == old(
                    self,
                ).log().failed(),
            },
            final(self).calls().len() == old(self).calls().len() + 1,
            extends(old(self).calls(), final(self).calls()),
            final(self).calls().last() matches StreamCall::Read { room, outcome } && room
                <= contents(old(bufs)@).flatten().len() && outcome == r,
        default_ensures
            contents(old(bufs)@).flatten().len() == 0 ==> contents(final(bufs)@) == contents(
                old(bufs)@,
            ),
            forall|i: int| #[trigger]
                first_filled(contents(old(bufs)@), i) ==> others_kept(
                    contents(old(bufs)@),
                    contents(final(bufs)@),
                    i,
                ) && (r matches Ok(n) ==> n <= contents(old(bufs)@)[i].len()),
    {
        let ghost c0 = contents(old(bufs)@);
        let mut i: usize = 0;
        while i < bufs.len()
            invariant
                bufs@ == old(bufs)@,
                self.log() == old(self).log(),
                self.calls() == old(self).calls(),
                c0 == contents(old(bufs)@),
                i <= bufs@.len(),
                forall|j: int| 0 <= j < i ==> #[trigger] c0[j].len() == 0,
            decreases bufs@.len() - i,
        {
            if bufs[i].len() != 0 {
                let ghost before = contents(bufs@);
                let r = self.read(bufs[i]);
                proof {
                    let c1 = contents(bufs@);
                    assert(c1 =~= before.update(i as int, bufs@[i as int]@));
                    before.lemma_flatten_length_ge_single_element_length(i as int);
                    before.lemma_flatten_and_flatten_alt_are_equivalent();
                    assert forall|i2: int| #[trigger] first_filled(c0, i2) implies i2 == i by {
                        if i2 > i {
                            assert(c0[i as int].len() == 0);
                        }
                    }
                    lemma_flatten_around(c1, i as int);
                    assert forall|j: int| 0 <= j < i implies #[trigger] c1.subrange(
                        0,
                        i as int,
                    )[j].len() == 0 by {
                        assert(c1[j] == c0[j]);
                    }
                    lemma_flatten_all_empty(c1.subrange(0, i as int));
                    if r is Ok {
                        assert(c1.flatten().subrange(0, r->Ok_0 as int) =~= c1[i as int].subrange(
                            0,
                            r->Ok_0 as int,
                        ));
                    }
                }
                return r;
            }
            i = i + 1;
        }
        proof {
            assert forall|i2: int| #[trigger] first_filled(c0, i2) implies false by {
                assert(c0[i2].len() == 0);
            }
            assert forall|j: int| 0 <= j < c0.len() implies #[trigger] c0[j].len() == 0 by {}
            lemma_flatten_all_empty(c0);
        }
        let mut none: Vec<u8> = Vec::new();
        let r = self.read(none.as_mut_slice());
        proof {
            assert(contents(bufs@).flatten().subrange(0, 0) =~= none@.subrange(0, 0));
        }
        r
    }

    /// Writes some prefix of `buf`, returning its length.
    fn write(&mut self, buf: &[u8]) -> (r: Result<usize, std::io::Error>)
        ensures
            match r {
                Ok(n) => n <= buf@.len() && final(self).log() == old(self).log().wrote(
                    buf@.subrange(0, n as int),
                ),
                Err(_) => old(self).log().may_fail() && final(self).log() == old(
                    self,
                ).log().failed(),
            },
            final(self).calls() == old(self).calls().push(
                (StreamCall::Write { offered: buf@, outcome: r }),
            ),
    ;

    /// Flushes what the stream holds to its destination.
    fn flush(&mut self) -> (r: Result<(), std::io::Error>)
        ensures
            match r {
                Ok(()) => final(self).log() == old(self).log().flushed(),
                Err(_) => old(self).log().may_fail() && final(self).log() == old(
                    self,
                ).log().failed(),
            },
            final(self).calls() == old(self).calls().push((StreamCall::Flush { result: r })),
    ;

    /// Writes some prefix of the buffers of `bufs`, taken one after the other,
    /// returning its length. By default this writes (a prefix of) the first
    /// buffer that is not empty (an empty buffer when there is none).
    fn write_vectored(&mut self, bufs: &[&[u8]]) -> (r: Result<usize, std::io::Error>)
        ensures
            match r {
                Ok(n) => n <= total_len(bufs@) && final(self).log() == old(self).log().wrote(
                    concat_bufs(bufs@).subrange(0, n as int),
                ),
                Err(_) => old(self).log().may_fail() && final(self).log() == old(
                    self,
                ).log().failed(),
            },
            final(self).calls().len() == old(self).calls().len() + 1,
            extends(old(self).calls(), final(self).calls()),
            final(self).calls().last() matches StreamCall::Write { offered, outcome }
                && offered.len() <= total_len(bufs@) && offered == concat_bufs(bufs@).subrange(
                0,
                offered.len() as int,
            ) && outcome == r,
        default_ensures
            total_len(bufs@) == 0 ==> (r matches Ok(n) ==> n == 0),
            forall|i: int| #[trigger]
                first_filled(slices(bufs@), i) ==> (r matches Ok(n) ==> n <= bufs@[i]@.len()),
    {
        let ghost c = slices(bufs@);
        proof {
            lemma_concat_is_flatten(bufs@);
            lemma_concat_len(bufs@);
        }
        let mut i: usize = 0;
        while i < bufs.len()
            invariant
                self.log() == old(self).log(),
                self.calls() == old(self).calls(),
                c == slices(bufs@),
                concat_bufs(bufs@) == c.flatten(),
                concat_bufs(bufs@).len() == total_len(bufs@),
                i <= bufs@.len(),
                forall|j: int| 0 <= j < i ==> (#[trigger] bufs@[j])@.len() == 0,
            decreases bufs@.len() - i,
        {
            if bufs[i].len() != 0 {
                let r = self.write(bufs[i]);
                proof {
                    lemma_total_len_at_least_one(bufs@, i as int);
                    assert forall|i2: int| #[trigger] first_filled(c, i2) implies i2 == i by {
                        if i2 < i {
                            assert(bufs@[i2]@.len() == 0);
                        }
                        if i2 > i {
                            assert(c[i as int].len() == 0);
                        }
                    }
                    lemma_flatten_around(c, i as int);
                    assert forall|j: int| 0 <= j < i implies #[trigger] c.subrange(
                        0,
                        i as int,
                    )[j].len() == 0 by {
                        assert(bufs@[j]@.len() == 0);
                    }
                    lemma_flatten_all_empty(c.subrange(0, i as int));
                    if r is Ok {
                        assert(c.flatten().subrange(0, r->Ok_0 as int) =~= bufs@[i as int]@.subrange(
                            0,
                            r->Ok_0 as int,
                        ));
                    }
                    assert(c.flatten().subrange(0, bufs@[i as int]@.len() as int)
                        =~= bufs@[i as int]@);
                }
                return r;
            }
            i = i + 1;
        }
        proof {
            lemma_total_len_nonneg(bufs@);
            assert forall|i2: int| #[trigger] first_filled(c, i2) implies false by {
                assert(bufs@[i2]@.len() == 0);
            }
        }
        let none: Vec<u8> = Vec::new();
        let r = self.write(none.as_slice());
        proof {
            assert(concat_bufs(bufs@).subrange(0, 0) =~= none@.subrange(0, 0));
            assert(none@ =~= concat_bufs(bufs@).subrange(0, 0));
        }
        r
    }

    /// Writes all of `buf`, calling `write` until it is all written. A call
    /// that writes nothing ends it with a `WriteZero` error; an interrupted
    /// call is retried. The stream takes the bytes of `buf` in order: all of
    /// them on success, a first part of them on failure.
    fn write_all(&mut self, buf: &[u8]) -> (r: Result<(), std::io::Error>)
        ensures
            final(self).log().reads == old(self).log().reads,
            final(self).log().flushes == old(self).log().flushes,
            exists|k: int|
                0 <= k <= buf@.len() && final(self).log().sent() == old(self).log().sent()
                    + buf@.subrange(0, k) && (r is Ok ==> k == buf@.len()),
            extends(old(self).calls(), final(self).calls()),
            forall|i: int|
                0 <= i < calls_since(old(self).calls(), final(self).calls()).len() ==> is_write(
                    #[trigger] calls_since(old(self).calls(), final(self).calls())[i],
                ),
            r matches Err(e) ==> ended_in_failure(old(self).calls(), final(self).calls(), e),
        default_ensures
            buf@.len() == 0 ==> r is Ok,
    {
        let mut start: usize = 0;
        let mut retries: u64 = 0;
        while start < buf.len()
            invariant
                start <= buf@.len(),
                self.log().reads == old(self).log().reads,
                self.log().flushes == old(self).log().flushes,
                self.log().sent() == old(self).log().sent() + buf@.subrange(0, start as int),
                extends(old(self).calls(), self.calls()),
                forall|i: int|
                    0 <= i < calls_since(old(self).calls(), self.calls()).len() ==> is_write(
                        #[trigger] calls_since(old(self).calls(), self.calls())[i],
                    ),
            decreases buf@.len() - start, u64::MAX - retries,
        {
            let ghost before = self.log();
            let ghost calls_before = self.calls();
            let r = self.write(slice_subrange(buf, start, buf.len()));
            proof {
                lemma_calls_push(old(self).calls(), calls_before, self.calls());
                if r is Ok {
                    let n = r->Ok_0;
                    assert(buf@.subrange(start as int, buf@.len() as int).subrange(0, n as int)
                        =~= buf@.subrange(start as int, start + n));
                    lemma_sent_wrote(before, buf@.subrange(start as int, start + n));
                    assert(buf@.subrange(0, start + n) =~= buf@.subrange(0, start as int)
                        + buf@.subrange(start as int, start + n));
                }
            }
            match write_step(r, retries, "failed to write whole buffer") {
                WriteStep::Advance(n) => {
                    start = start + n;
                    retries = 0;
                },
                WriteStep::Retry => {
                    retries = retries + 1;
                },
                WriteStep::Stop(e) => {
                    proof {
                        assert(0 <= start <= buf@.len());
                    }
                    return Err(e);
                },
            }
        }
        proof {
            assert(buf@.subrange(0, buf@.len() as int) =~= buf@);
        }
        Ok(())
    }
}

/// A source that can tell how many bytes can be read from it without
/// blocking.
pub trait ReadReady {
    /// The number of bytes that are ready to be read now.
    fn num_ready_bytes(&self) -> Result<u64, std::io::Error>;
}

/// A trait that combines [`HalfDuplexIo`] and [`ReadReady`]. Implemented via
/// blanket implementation.
pub trait HalfDuplexReadReady: HalfDuplexIo + ReadReady {

}

impl<T: HalfDuplexIo + ReadReady> HalfDuplexReadReady for T {

}

/// One buffer's bytes count towards the total.
pub proof fn lemma_total_len_at_least_one(bufs: Seq<&[u8]>, i: int)
    requires
        0 <= i < bufs.len(),
    ensures
        bufs[i]@.len() <= total_len(bufs),
    decreases bufs.len(),
{
    lemma_total_len_nonneg(bufs.drop_last());
    if i < bufs.len() - 1 {
        lemma_total_len_at_least_one(bufs.drop_last(), i);
    }
}

/// The total length is never negative.
pub proof fn lemma_total_len_nonneg(bufs: Seq<&[u8]>)
    ensures
        total_len(bufs) >= 0,
    decreases bufs.len(),
{
    if bufs.len() > 0 {
        lemma_total_len_nonneg(bufs.drop_last());
    }
}

/// The total length of a prefix of `bufs` is at most the total length.
pub proof fn lemma_total_len_prefix(bufs: Seq<&[u8]>, k: int)
    requires
        0 <= k <= bufs.len(),
    ensures
        total_len(bufs.subrange(0, k)) <= total_len(bufs),
    decreases bufs.len(),
{
    if k < bufs.len() {
        assert(bufs.drop_last().subrange(0, k) =~= bufs.subrange(0, k));
        lemma_total_len_prefix(bufs.drop_last(), k);
    } else {
        assert(bufs.subrange(0, k) =~= bufs);
    }
}

/// The concatenation is as long as the total length.
pub proof fn lemma_concat_len(bufs: Seq<&[u8]>)
    ensures
        concat_bufs(bufs).len() == total_len(bufs),
    decreases bufs.len(),
{
    if bufs.len() > 0 {
        lemma_concat_len(bufs.drop_last());
    }
}

/// Splitting `bufs` in two splits its total length and its concatenation.
pub proof fn lemma_total_len_split(bufs: Seq<&[u8]>, k: int)
    requires
        0 <= k <= bufs.len(),
    ensures
        total_len(bufs) == total_len(bufs.subrange(0, k)) + total_len(
            bufs.subrange(k, bufs.len() as int),
        ),
        concat_bufs(bufs) == concat_bufs(bufs.subrange(0, k)) + concat_bufs(
            bufs.subrange(k, bufs.len() as int),
        ),
    decreases bufs.len(),
{
    if k == bufs.len() {
        assert(bufs.subrange(0, k) =~= bufs);
        assert(bufs.subrange(k, bufs.len() as int) =~= Seq::<&[u8]>::empty());
        assert(concat_bufs(bufs) =~= concat_bufs(bufs.subrange(0, k)) + Seq::<u8>::empty());
    } else {
        lemma_total_len_split(bufs.drop_last(), k);
        assert(bufs.drop_last().subrange(0, k) =~= bufs.subrange(0, k));
        assert(bufs.subrange(k, bufs.len() as int).drop_last() =~= bufs.drop_last().subrange(
            k,
            bufs.len() - 1,
        ));
        assert(bufs.subrange(k, bufs.len() as int).last() == bufs.last());
        assert(concat_bufs(bufs) =~= concat_bufs(bufs.subrange(0, k)) + concat_bufs(
            bufs.subrange(k, bufs.len() as int),
        ));
    }
}

} // verus!
