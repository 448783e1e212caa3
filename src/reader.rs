//! The reader that drains its sources one after the other.
use vstd::prelude::*;

use crate::model::{
    apply, continues, enabled, exhausted, failed_open_of_file, handed_out, is_call, leads,
    lemma_call_keeps_order, lemma_call_moves_forward, lemma_exhausted_call, lemma_leads_push,
    lemma_leads_then_call, out_bytes, outcome, run, taken_before, Event, ReaderModel,
};
use crate::source::{make_source_vec, origin_of, resolves_to, Source};
use crate::strategy::{ByteStream, IoStrategy};

verus! {

/// The source being read and its open handle.
struct State<S> {
    source: Source,
    reader: S,
}

/// What a read call returns, as bytes: those placed in `buf` for `Ok`, `None`
/// for an error.
pub open spec fn returned(r: Result<usize, std::io::Error>, buf: Seq<u8>) -> Option<Seq<u8>> {
    match r {
        Ok(n) => Some(buf.take(n as int)),
        Err(_) => None,
    }
}

/// What a read call that meets `es` from `m` and returns `r` with `buf` tells
/// directly.
proof fn lemma_returned_facts(
    m: ReaderModel,
    es: Seq<Event>,
    r: Result<usize, std::io::Error>,
    buf: Seq<u8>,
)
    requires
        is_call(m, es, returned(r, buf)),
        r is Ok ==> r->Ok_0 <= buf.len(),
        m.current is None ==> m.taken == Seq::<u8>::empty(),
    ensures
        handed_out(run(m, es)) == handed_out(m) + out_bytes(returned(r, buf)),
        exhausted(m) ==> r == Ok::<usize, std::io::Error>(0) && run(m, es) == m && es.len() == 0,
        r == Ok::<usize, std::io::Error>(0) ==> exhausted(run(m, es)),
        r is Ok && r->Ok_0 > 0 ==> run(m, es).current is Some,
        r is Ok && r->Ok_0 > 0 ==> run(m, es).taken == taken_before(m, run(m, es)) + buf.take(r->Ok_0 as int),
        r is Err && run(m, es).current is Some ==> run(m, es).taken == taken_before(m, run(m, es)),
        r is Err && run(m, es).current is None ==> failed_open_of_file(m, run(m, es)),
{
    if r is Ok {
        assert(buf.take(r->Ok_0 as int).len() == r->Ok_0);
        if r->Ok_0 == 0 {
            assert(returned(r, buf) == Some(Seq::<u8>::empty()));
        }
    }
    lemma_call_moves_forward(m, es, returned(r, buf));
    lemma_call_keeps_order(m, es, returned(r, buf));
    if exhausted(m) {
        lemma_exhausted_call(m, es, returned(r, buf));
        if r is Ok {
            assert(buf.take(r->Ok_0 as int).len() == 0);
        }
    }
}

/// A read call that began with `es` from `m0` and ends on `e`, met in state
/// `before`, is the call `es` followed by `e`.
proof fn lemma_ends_on(m0: ReaderModel, es: Seq<Event>, before: ReaderModel, e: Event)
    requires
        leads(m0, es, before),
        enabled(before, e),
        !continues(e),
    ensures
        is_call(m0, es + seq![e], outcome(e)),
        run(m0, es + seq![e]) == apply(before, e),
{
    let last = seq![e];
    assert(is_call(before, last, outcome(e)));
    lemma_leads_then_call(m0, es, before, last, outcome(e));
    assert(last.drop_first() =~= Seq::<Event>::empty());
    assert(run(apply(before, e), Seq::<Event>::empty()) == apply(before, e));
}

/// A reader over several sources, read one after the other as one stream.
pub struct FileInput<Io: IoStrategy> {
    sources: Vec<Source>,
    state: Option<State<Io::Stream>>,
    io_strat: Io,
    closed: Ghost<Seq<Io::Stream>>,
}

impl<Io: IoStrategy> View for FileInput<Io> {
    type V = ReaderModel;

    closed spec fn view(&self) -> ReaderModel {
        ReaderModel {
            pending: self.sources@,
            current: match self.state {
                Some(st) => Some(st.source),
                None => None,
            },
            taken: match self.state {
                Some(st) => st.reader.taken(),
                None => Seq::empty(),
            },
            finished: self.closed@.map_values(|h: Io::Stream| h.taken()),
        }
    }
}

impl<Io: IoStrategy> FileInput<Io> {
    /// The strategy this reader opens its sources through.
    pub closed spec fn strategy(&self) -> Io {
        self.io_strat
    }

    /// The handles this reader has closed, in order, each at its end of data.
    pub closed spec fn closed_handles(&self) -> Seq<Io::Stream> {
        self.closed@
    }

    /// The open handle, if any.
    pub closed spec fn handle(&self) -> Option<Io::Stream> {
        match self.state {
            Some(st) => Some(st.reader),
            None => None,
        }
    }

    /// Whether the reader is well formed: a handle is open exactly when a
    /// source is current, it was opened on that source, the record of what it
    /// handed out is the one the view shows, and the view's closed records are
    /// those of the closed handles.
    pub open spec fn wf(&self) -> bool {
        &&& (self.handle() is Some <==> self@.current is Some)
        &&& self@.current is Some ==> self.handle()->0.origin() == origin_of(self@.current->0)
        &&& self@.taken == match self.handle() {
            Some(h) => h.taken(),
            None => Seq::<u8>::empty(),
        }
        &&& self@.finished == self.closed_handles().map_values(|h: Io::Stream| h.taken())
    }

    /// A reader over the sources that `paths` names, with the strategy's
    /// default value; nothing is opened yet.
    pub fn new(paths: &[&str]) -> (r: Self)
        ensures
            r.wf(),
            resolves_to(paths@, r@.pending),
            r@.current is None,
            r.closed_handles() == Seq::<Io::Stream>::empty(),
    {
        Self::with_strategies(paths, Io::default())
    }

    /// A reader over the sources that `paths` names, opened through `io`;
    /// nothing is opened yet.
    pub fn with_strategies(paths: &[&str], io: Io) -> (r: Self)
        ensures
            r.wf(),
            resolves_to(paths@, r@.pending),
            r@.current is None,
            r.closed_handles() == Seq::<Io::Stream>::empty(),
            r.strategy() == io,
    {
        let r = FileInput {
            sources: make_source_vec(paths),
            state: None,
            io_strat: io,
            closed: Ghost(Seq::empty()),
        };
        assert(r@.finished =~= Seq::<Seq<u8>>::empty());
        r
    }

    /// This reader, in the state it is in, with `io` to open the sources that
    /// are still pending.
    pub fn io_strategy<Io2: IoStrategy<Stream = Io::Stream>>(self, io: Io2) -> (r: FileInput<Io2>)
        requires
            self.wf(),
        ensures
            r.wf(),
            r@ == self@,
            r.handle() == self.handle(),
            r.strategy() == io,
            r.closed_handles() == self.closed_handles(),
    {
        FileInput { sources: self.sources, state: self.state, io_strat: io, closed: self.closed }
    }

    /// The source being read from: `None` before the first read, between two
    /// sources and once all are drained.
    pub fn source(&self) -> (r: Option<Source>)
        ensures
            r == self@.current,
    {
        match &self.state {
            Some(st) => Some(st.source.copy()),
            None => None,
        }
    }

    /// Takes in what opening `source` gave: on success the handle becomes the
    /// open one, for that source; on failure the error is returned as it
    /// came and no source is open.
    pub fn install(&mut self, source: Source, opened: Result<Io::Stream, std::io::Error>) -> (r: Result<(), std::io::Error>)
        requires
            old(self).wf(),
            old(self)@.current is None,
            opened is Ok ==> opened->Ok_0.origin() == origin_of(source),
        ensures
            final(self).wf(),
            final(self).strategy() == old(self).strategy(),
            final(self).closed_handles() == old(self).closed_handles(),
            final(self)@.pending == old(self)@.pending,
            final(self)@.finished == old(self)@.finished,
            match opened {
                Ok(h) => r is Ok && final(self)@.current == Some(source) && final(self).handle() == Some(h),
                Err(e) => r == Err::<(), std::io::Error>(e) && final(self)@ == old(self)@,
            },
    {
        match opened {
            Ok(handle) => {
                self.state = Some(State { source, reader: handle });
                Ok(())
            },
            Err(e) => Err(e),
        }
    }

    /// Takes the head of the pending sources and opens it: a file with the
    /// strategy's `open` on its path, standard input with its `stdin`, which
    /// cannot fail. The source leaves the pending ones whatever comes of it.
    pub fn open_next_file(&mut self) -> (r: Result<(), std::io::Error>)
        requires
            old(self).wf(),
            old(self)@.current is None,
            old(self)@.pending.len() > 0,
        ensures
            final(self).wf(),
            final(self).strategy() == old(self).strategy(),
            final(self).closed_handles() == old(self).closed_handles(),
            final(self)@.pending == old(self)@.pending.drop_first(),
            final(self)@.finished == old(self)@.finished,
            r is Ok <==> final(self)@.current is Some,
            r is Ok ==> final(self)@ == apply(old(self)@, Event::Opened),
            r is Err ==> final(self)@ == apply(old(self)@, Event::OpenFailed) && old(self)@.pending[0] is File,
    {
        let next = self.sources.remove(0);
        assert(self.sources@ =~= old(self)@.pending.drop_first());
        let opened = match &next {
            Source::Stdin => Ok(self.io_strat.stdin()),
            Source::File(path) => self.io_strat.open(path.as_str()),
        };
        self.install(next, opened)
    }

    /// Takes in what the open handle's read answered: a failure is returned
    /// as it came with the handle kept open, to be read again; bytes are
    /// returned with the handle kept open; its end of data closes it, and the
    /// reader goes on with the next source (`None`).
    pub fn after_read(&mut self, answer: Result<usize, std::io::Error>) -> (r: Option<Result<usize, std::io::Error>>)
        requires
            old(self).wf(),
            old(self)@.current is Some,
            answer is Ok ==> (old(self).handle()->0.answered_end() <==> answer->Ok_0 == 0),
        ensures
            final(self).wf(),
            final(self).strategy() == old(self).strategy(),
            final(self)@.pending == old(self)@.pending,
            match answer {
                Err(e) => r == Some(Err::<usize, std::io::Error>(e)) && final(self)@ == old(self)@
                    && final(self).handle() == old(self).handle() && final(self).closed_handles() == old(self).closed_handles(),
                Ok(n) => if n == 0 {
                    r is None && final(self)@ == apply(old(self)@, Event::Data(Seq::empty()))
                        && final(self).closed_handles() == old(self).closed_handles().push(old(self).handle()->0)
                } else {
                    r == Some(Ok::<usize, std::io::Error>(n)) && final(self)@ == old(self)@
                        && final(self).handle() == old(self).handle() && final(self).closed_handles() == old(self).closed_handles()
                },
            },
    {
        match answer {
            Ok(n) => {
                if n == 0 {
                    let st = self.state.take().unwrap();
                    self.closed = Ghost(self.closed@.push(st.reader));
                    assert(self.closed@.map_values(|h: Io::Stream| h.taken()) =~= old(self)@.finished.push(old(self)@.taken));
                    None
                } else {
                    Some(Ok(n))
                }
            },
            Err(e) => Some(Err(e)),
        }
    }

    /// Reads the next bytes of the stream into `buf` and returns how many.
    ///
    /// Opens pending sources as they are needed (`open_next_file`), reads the
    /// open handle and acts on its answer (`after_read`), passing over any
    /// handle at its end of data, so that zero comes back only once every
    /// source is drained. A failure to open or to read is returned as it came;
    /// a source that failed to open is dropped, a handle that failed to read
    /// stays.
    ///
    /// The events of the call are tied to the handles: the open handle is
    /// always the one opened on the current source, bytes returned are exactly
    /// what it handed out in this call, a new handle starts with nothing handed
    /// out, a failed read hands out nothing, and a handle is closed only once
    /// it answered its end of data, joining `closed_handles`. So the bytes of
    /// all calls, in order, are what the handles handed out, in order. Only a
    /// file can fail to open.
    pub fn read(&mut self, buf: &mut [u8]) -> (r: Result<usize, std::io::Error>)
        requires
            old(self).wf(),
            old(buf)@.len() >= 1,
        ensures
            final(self).wf(),
            final(buf)@.len() == old(buf)@.len(),
            r is Ok ==> r->Ok_0 <= old(buf)@.len(),
            final(self).strategy() == old(self).strategy(),
            old(self).closed_handles().is_prefix_of(final(self).closed_handles()),
            forall|i: int|
                old(self).closed_handles().len() <= i < final(self).closed_handles().len() ==> (#[trigger] final(self).closed_handles()[i]).answered_end(),
            handed_out(final(self)@) == handed_out(old(self)@) + out_bytes(returned(r, final(buf)@)),
            exhausted(old(self)@) ==> r == Ok::<usize, std::io::Error>(0) && final(self)@ == old(self)@
                && final(buf)@ == old(buf)@,
            r == Ok::<usize, std::io::Error>(0) ==> exhausted(final(self)@),
            r is Ok && r->Ok_0 > 0 ==> final(self)@.current is Some,
            r is Ok && r->Ok_0 > 0 ==> final(self)@.taken == taken_before(old(self)@, final(self)@)
                + final(buf)@.take(r->Ok_0 as int),
            r is Err && final(self)@.current is Some ==> final(self)@.taken == taken_before(old(self)@, final(self)@),
            r is Err && final(self)@.current is None ==> failed_open_of_file(old(self)@, final(self)@),
            exists|es: Seq<Event>|
                #[trigger] is_call(old(self)@, es, returned(r, final(buf)@)) && final(self)@ == run(
                    old(self)@,
                    es,
                ),
    {
        let ghost m0 = self@;
        let ghost mut es: Seq<Event> = Seq::empty();
        loop
            invariant
                self.wf(),
                m0 == old(self)@,
                leads(m0, es, self@),
                buf@.len() == old(buf)@.len(),
                es.len() == 0 ==> buf@ == old(buf)@,
                old(self).closed_handles().is_prefix_of(self.closed_handles()),
                forall|i: int|
                    old(self).closed_handles().len() <= i < self.closed_handles().len() ==> (#[trigger] self.closed_handles()[i]).answered_end(),
                self@.current is None ==> self@.taken == Seq::<u8>::empty(),
                self.strategy() == old(self).strategy(),
            decreases 2 * self@.pending.len() + (if self@.current is Some { 1int } else { 0int }),
        {
            if self.state.is_none() {
                if self.sources.len() == 0 {
                    let r: Result<usize, std::io::Error> = Ok(0);
                    proof {
                        assert(returned(r, buf@) == Some(Seq::<u8>::empty()));
                        assert(is_call(self@, Seq::<Event>::empty(), returned(r, buf@)));
                        lemma_leads_then_call(m0, es, self@, Seq::empty(), returned(r, buf@));
                        assert(es + Seq::<Event>::empty() =~= es);
                        assert(is_call(m0, es, returned(r, buf@)) && self@ == run(m0, es));
                        lemma_returned_facts(m0, es, r, buf@);
                    }
                    return r;
                }
                let ghost before = self@;
                match self.open_next_file() {
                    Ok(()) => {
                        proof {
                            lemma_leads_push(m0, es, before, Event::Opened);
                            es = es.push(Event::Opened);
                        }
                    },
                    Err(e) => {
                        let r: Result<usize, std::io::Error> = Err(e);
                        proof {
                            lemma_ends_on(m0, es, before, Event::OpenFailed);
                            assert(is_call(m0, es + seq![Event::OpenFailed], returned(r, buf@)) && self@ == run(m0, es + seq![Event::OpenFailed]));
                            lemma_returned_facts(m0, es + seq![Event::OpenFailed], r, buf@);
                        }
                        return r;
                    },
                }
            }
            let ghost before = self@;
            let mut st = self.state.take().unwrap();
            let answer = st.reader.read(buf);
            self.state = Some(st);
            let ghost e = match answer {
                Ok(n) => Event::Data(buf@.take(n as int)),
                Err(_) => Event::ReadFailed,
            };
            proof {
                if answer is Ok {
                    assert(buf@.take(0) =~= Seq::<u8>::empty());
                }
            }
            match self.after_read(answer) {
                None => {
                    proof {
                        lemma_leads_push(m0, es, before, e);
                        es = es.push(e);
                    }
                },
                Some(r) => {
                    proof {
                        lemma_ends_on(m0, es, before, e);
                        assert(outcome(e) == returned(r, buf@));
                        assert(is_call(m0, es + seq![e], returned(r, buf@)) && self@ == run(m0, es + seq![e]));
                        lemma_returned_facts(m0, es + seq![e], r, buf@);
                    }
                    return r;
                },
            }
        }
    }
}

} // verus!
