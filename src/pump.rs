//! The buffer that collects a request's bytes from successive reads and
//! drives the parser over them.

use vstd::prelude::*;
use crate::request::{
    initial_request, lemma_run_bound, lemma_run_split, lemma_run_wf, request_run, request_wf,
    ParseError, Request, RequestView,
};
use crate::wire::concat_all;

verus! {

/// The first capacity of the read buffer.
pub const INITIAL_CAPACITY: usize = 8;

/// The capacity after the buffer fills up: doubled, as far as `usize` goes.
pub open spec fn grown(cap: nat) -> nat {
    if cap <= usize::MAX / 2 {
        cap * 2
    } else {
        usize::MAX as nat
    }
}

/// The abstract pump: the request so far, the bytes read but not yet
/// consumed, and the buffer's capacity.
pub struct PumpView {
    pub request: RequestView,
    pub pending: Seq<u8>,
    pub capacity: nat,
}

/// The request and the pending bytes after the reads in `reads` are
/// received, one after another, starting from `request` with `pending`.
pub open spec fn pump_feed(request: RequestView, pending: Seq<u8>, reads: Seq<Seq<u8>>) -> Result<
    (RequestView, Seq<u8>),
    Seq<char>,
>
    decreases reads.len(),
{
    if reads.len() == 0 {
        Ok((request, pending))
    } else {
        match request_run(request, pending + reads[0]) {
            Ok((r, k)) => pump_feed(r, (pending + reads[0]).skip(k as int), reads.drop_first()),
            Err(m) => Err(m),
        }
    }
}

/// The request and the pending bytes when all of `data` arrives at once.
pub open spec fn whole_feed(data: Seq<u8>) -> Result<(RequestView, Seq<u8>), Seq<char>> {
    match request_run(initial_request(), data) {
        Ok((r, k)) => Ok((r, data.skip(k as int))),
        Err(m) => Err(m),
    }
}

proof fn lemma_feed_after(prefix: Seq<u8>, reads: Seq<Seq<u8>>)
    requires
        request_run(initial_request(), prefix) is Ok,
    ensures
        ({
            let (r, k) = request_run(initial_request(), prefix)->Ok_0;
            pump_feed(r, prefix.skip(k as int), reads) == whole_feed(prefix + concat_all(reads))
        }),
    decreases reads.len(),
{
    let (r, k) = request_run(initial_request(), prefix)->Ok_0;
    lemma_run_wf(initial_request(), prefix);
    lemma_run_bound(initial_request(), prefix);
    if reads.len() == 0 {
        assert(prefix + concat_all(reads) =~= prefix);
    } else {
        let c = reads[0];
        let tail = reads.drop_first();
        lemma_run_split(initial_request(), prefix, c);
        let longer = prefix + c;
        assert(prefix + concat_all(reads) =~= longer + concat_all(tail));
        match request_run(r, prefix.skip(k as int) + c) {
            Ok((r2, k2)) => {
                lemma_run_bound(r, prefix.skip(k as int) + c);
                assert((prefix.skip(k as int) + c).skip(k2 as int) =~= longer.skip((k + k2) as int));
                lemma_feed_after(longer, tail);
            },
            Err(m) => {
                lemma_run_split(initial_request(), longer, concat_all(tail));
            },
        }
    }
}

/// However the bytes of a request are cut into reads, down to one byte at
/// a time, receiving the reads one after another ends with the request, the
/// pending bytes or the error that receiving all the bytes at once gives.
pub proof fn lemma_chunk_boundary_invariance(reads: Seq<Seq<u8>>)
    ensures
        pump_feed(initial_request(), Seq::empty(), reads) == whole_feed(concat_all(reads)),
{
    let e = Seq::<u8>::empty();
    assert(request_run(initial_request(), e) == Ok::<(RequestView, nat), Seq<char>>(
        (initial_request(), 0),
    ));
    assert(e.skip(0) =~= e);
    assert(e + concat_all(reads) =~= concat_all(reads));
    lemma_feed_after(e, reads);
}

/// Reads land in a growable buffer; after each read the parser runs over
/// the unconsumed bytes, and what it consumed slides out of the buffer.
pub struct BufferPump {
    buf: Vec<u8>,
    read_to_index: usize,
    request: Request,
}

impl View for BufferPump {
    type V = PumpView;

    closed spec fn view(&self) -> PumpView {
        PumpView {
            request: self.request@,
            pending: self.buf@.take(self.read_to_index as int),
            capacity: self.buf@.len(),
        }
    }
}

impl BufferPump {
    pub closed spec fn wf(&self) -> bool {
        &&& self.read_to_index <= self.buf@.len()
        &&& self.buf@.len() > 0
        &&& self.request.wf()
    }

    pub fn new() -> (r: BufferPump)
        ensures
            r.wf(),
            r@.request == initial_request(),
            r@.pending == Seq::<u8>::empty(),
            r@.capacity == INITIAL_CAPACITY,
    {
        let r = BufferPump {
            buf: vec![0u8; INITIAL_CAPACITY],
            read_to_index: 0,
            request: Request::new(),
        };
        assert(r@.pending =~= Seq::<u8>::empty());
        r
    }

    /// Whether the request is complete.
    pub fn is_done(&self) -> (r: bool)
        ensures
            r == (self@.request.state == crate::request::ParserState::Done),
    {
        self.request.parser_state == crate::request::ParserState::Done
    }

    /// Makes room for the next read, growing a full buffer, and returns how
    /// many bytes the next read may bring.
    pub fn prepare_read(&mut self) -> (r: usize)
        requires
            old(self).wf(),
        ensures
            final(self).wf(),
            final(self)@.request == old(self)@.request,
            final(self)@.pending == old(self)@.pending,
            final(self)@.capacity == if old(self)@.pending.len() >= old(self)@.capacity {
                grown(old(self)@.capacity)
            } else {
                old(self)@.capacity
            },
            r == final(self)@.capacity - final(self)@.pending.len(),
            final(self)@.pending.len() <= final(self)@.capacity,
            final(self)@.capacity < usize::MAX ==> r > 0,
    {
        if self.read_to_index >= self.buf.len() {
            let cap = self.buf.len();
            let new_cap: usize = if cap <= usize::MAX / 2 {
                cap * 2
            } else {
                usize::MAX
            };
            let ghost before = self.buf@;
            self.buf.resize(new_cap, 0u8);
            assert(self.buf@.take(self.read_to_index as int) =~= before.take(
                self.read_to_index as int,
            ));
        }
        self.buf.len() - self.read_to_index
    }

    /// Takes the bytes of one read, at most what `prepare_read` allowed, and
    /// parses as far as the bytes pending now go. Returns the bytes consumed.
    pub fn receive(&mut self, data: &[u8]) -> (r: Result<usize, ParseError>)
        requires
            old(self).wf(),
            data@.len() <= old(self)@.capacity - old(self)@.pending.len(),
        ensures
            final(self).wf(),
            final(self)@.pending.len() <= final(self)@.capacity,
            match request_run(old(self)@.request, old(self)@.pending + data@) {
                Ok((req, k)) => r == Ok::<usize, ParseError>(k as usize) && final(self)@.request
                    == req && final(self)@.pending == (old(self)@.pending + data@).skip(k as int)
                    && final(self)@.capacity == old(self)@.capacity,
                Err(m) => r is Err && r->Err_0.is_invalid_format(m),
            },
            r is Ok ==> pump_feed(old(self)@.request, old(self)@.pending, seq![data@]) == Ok::<
                (RequestView, Seq<u8>),
                Seq<char>,
            >((final(self)@.request, final(self)@.pending)),
    {
        let ghost incoming = old(self)@.pending + data@;
        let cap = self.buf.len();
        let mut i: usize = 0;
        while i < data.len()
            invariant
                self.read_to_index + data@.len() <= self.buf@.len(),
                self.buf@.len() == old(self).buf@.len(),
                cap == self.buf@.len(),
                old(self).read_to_index <= old(self).buf@.len(),
                incoming == old(self).buf@.take(old(self).read_to_index as int) + data@,
                self.read_to_index == old(self).read_to_index,
                self.request == old(self).request,
                i <= data@.len(),
                self.buf@.take(self.read_to_index + i) == incoming.take(self.read_to_index + i),
            decreases data@.len() - i,
        {
            let ghost before = self.buf@;
            self.buf.set(self.read_to_index + i, data[i]);
            assert(incoming[self.read_to_index + i] == data@[i as int]);
            assert forall|t: int| 0 <= t < self.read_to_index + i implies self.buf@[t] == incoming[t] by {
                assert(before[t] == before.take(self.read_to_index + i)[t]);
                assert(incoming[t] == incoming.take(self.read_to_index + i)[t]);
            }
            assert(self.buf@.take(self.read_to_index + i + 1) =~= incoming.take(
                self.read_to_index + i + 1,
            ));
            i = i + 1;
        }
        self.read_to_index = self.read_to_index + data.len();
        assert(self.buf@.take(self.read_to_index as int) =~= incoming);
        let window = &self.buf[0..self.read_to_index];
        let parsed = match self.request.parse(window) {
            Ok(n) => n,
            Err(e) => {
                return Err(e);
            },
        };
        assert(self.buf@.subrange(0, self.read_to_index as int) =~= incoming);
        proof {
            crate::request::lemma_run_bound(old(self)@.request, incoming);
        }
        if parsed > 0 {
            let ghost orig = self.buf@;
            let ghost parsed_request = self.request;
            let keep = self.read_to_index - parsed;
            let mut j: usize = 0;
            while j < keep
                invariant
                    keep + parsed == self.read_to_index,
                    self.read_to_index <= orig.len(),
                    self.buf@.len() == orig.len(),
                    j <= keep,
                    parsed > 0,
                    self.request == parsed_request,
                    self.read_to_index == keep + parsed,
                    forall|t: int| 0 <= t < j ==> self.buf@[t] == orig[parsed + t],
                    forall|t: int| j <= t < orig.len() ==> self.buf@[t] == orig[t],
                decreases keep - j,
            {
                let b = self.buf[parsed + j];
                self.buf.set(j, b);
                j = j + 1;
            }
            self.read_to_index = keep;
            assert(self.buf@.take(keep as int) =~= incoming.skip(parsed as int));
        } else {
            assert(incoming.skip(0) =~= incoming);
        }
        proof {
            let one = seq![data@];
            assert(one[0] == data@);
            assert(one.drop_first() =~= Seq::<Seq<u8>>::empty());
            assert(pump_feed(self@.request, self@.pending, Seq::<Seq<u8>>::empty()) == Ok::<
                (RequestView, Seq<u8>),
                Seq<char>,
            >((self@.request, self@.pending)));
        }
        Ok(parsed)
    }

    /// The request parsed so far.
    pub fn request(&self) -> (r: &Request)
        ensures
            r@ == self@.request,
            r.wf() <== self.wf(),
    {
        &self.request
    }

    pub fn into_request(self) -> (r: Request)
        ensures
            r@ == self@.request,
            r.wf() <== self.wf(),
    {
        self.request
    }
}

} // verus!
