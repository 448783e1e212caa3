//! The reader's state as values, and what one read call does to it.
use vstd::prelude::*;

use crate::source::Source;

verus! {

/// What a reader holds, seen from outside: the sources not yet opened, in
/// order, the source whose handle is open, if any, the bytes that handle has
/// handed out so far (none when no handle is open), and what each handle
/// closed at its end of data had handed out, in the order they were closed.
pub struct ReaderModel {
    pub pending: Seq<Source>,
    pub current: Option<Source>,
    pub taken: Seq<u8>,
    pub finished: Seq<Seq<u8>>,
}

/// Every byte the reader's handles have handed out, in order: those of the
/// closed handles, then those of the open one.
pub open spec fn handed_out(m: ReaderModel) -> Seq<u8> {
    m.finished.flatten_alt() + m.taken
}

/// The bytes a read call that returns `out` places in the caller's buffer.
pub open spec fn out_bytes(out: Option<Seq<u8>>) -> Seq<u8> {
    match out {
        Some(b) => b,
        None => Seq::empty(),
    }
}

/// One answer from the outside during a read call.
pub enum Event {
    /// The head of the pending sources was opened.
    Opened,
    /// Opening the head of the pending sources, a file, failed.
    OpenFailed,
    /// The open handle handed out these bytes; none means its end of data.
    Data(Seq<u8>),
    /// The open handle failed.
    ReadFailed,
}

/// Whether the reader holds no source any more: every read call returns
/// zero bytes.
pub open spec fn exhausted(m: ReaderModel) -> bool {
    m.current is None && m.pending.len() == 0
}

/// What the handle open in `m2`, after a read call from `m`, had handed out
/// before that call: what the open handle had, where the call opened none,
/// else nothing.
pub open spec fn taken_before(m: ReaderModel, m2: ReaderModel) -> Seq<u8> {
    if m2.pending.len() == m.pending.len() {
        m.taken
    } else {
        Seq::empty()
    }
}

/// Whether a read call from `m` to `m2` took a file from the pending sources as
/// the last one it tried to open: the one whose open failed.
pub open spec fn failed_open_of_file(m: ReaderModel, m2: ReaderModel) -> bool {
    &&& m2.pending.len() < m.pending.len()
    &&& m.pending[m.pending.len() - m2.pending.len() - 1] is File
}

/// Whether the reader can meet `e` in state `m`: it opens only when no handle
/// is open and a source is pending, only a file can fail to open, and it reads
/// only from an open handle.
pub open spec fn enabled(m: ReaderModel, e: Event) -> bool {
    match e {
        Event::Opened => m.current is None && m.pending.len() > 0,
        Event::OpenFailed => m.current is None && m.pending.len() > 0 && m.pending[0] is File,
        Event::Data(_) | Event::ReadFailed => m.current is Some,
    }
}

/// The state after `e`. The head of the pending sources leaves them when it is
/// opened, whether or not that succeeds, and a new handle has handed out
/// nothing; bytes from the open handle add to what it has handed out; its end
/// of data closes it, keeping what it handed out; a failed read changes nothing.
pub open spec fn apply(m: ReaderModel, e: Event) -> ReaderModel {
    match e {
        Event::Opened => ReaderModel {
            pending: m.pending.drop_first(),
            current: Some(m.pending[0]),
            taken: Seq::empty(),
            finished: m.finished,
        },
        Event::OpenFailed => ReaderModel {
            pending: m.pending.drop_first(),
            current: None,
            taken: Seq::empty(),
            finished: m.finished,
        },
        Event::Data(bytes) => if bytes.len() == 0 {
            ReaderModel {
                pending: m.pending,
                current: None,
                taken: Seq::empty(),
                finished: m.finished.push(m.taken),
            }
        } else {
            ReaderModel {
                pending: m.pending,
                current: m.current,
                taken: m.taken + bytes,
                finished: m.finished,
            }
        },
        Event::ReadFailed => m,
    }
}

/// The state after the events `es`, one after the other.
pub open spec fn run(m: ReaderModel, es: Seq<Event>) -> ReaderModel
    decreases es.len(),
{
    if es.len() == 0 {
        m
    } else {
        run(apply(m, es[0]), es.drop_first())
    }
}

/// Whether the read call goes on after `e`: after a successful open, and after
/// a handle's end of data.
pub open spec fn continues(e: Event) -> bool {
    match e {
        Event::Opened => true,
        Event::Data(bytes) => bytes.len() == 0,
        _ => false,
    }
}

/// What a read call that ends on `e` returns: the bytes, or `None` for a
/// failure.
pub open spec fn outcome(e: Event) -> Option<Seq<u8>> {
    match e {
        Event::Data(bytes) => Some(bytes),
        _ => None,
    }
}

/// Whether `es` is what one read call from state `m` meets, and `out` what it
/// returns: it opens and reads until a handle returns bytes, an open or a read
/// fails, or no source is left, where it returns no bytes.
pub open spec fn is_call(m: ReaderModel, es: Seq<Event>, out: Option<Seq<u8>>) -> bool
    decreases es.len(),
{
    if es.len() == 0 {
        exhausted(m) && out == Some(Seq::<u8>::empty())
    } else {
        &&& enabled(m, es[0])
        &&& if continues(es[0]) {
            is_call(apply(m, es[0]), es.drop_first(), out)
        } else {
            es.len() == 1 && out == outcome(es[0])
        }
    }
}

/// Whether the events `es` can begin a read call from `m` and lead to `m2`.
pub open spec fn leads(m: ReaderModel, es: Seq<Event>, m2: ReaderModel) -> bool
    decreases es.len(),
{
    if es.len() == 0 {
        m2 == m
    } else {
        enabled(m, es[0]) && continues(es[0]) && leads(apply(m, es[0]), es.drop_first(), m2)
    }
}

/// A read call that begins with `es` and goes on with `rest` is the call made
/// of both.
pub proof fn lemma_leads_then_call(
    m: ReaderModel,
    es: Seq<Event>,
    m2: ReaderModel,
    rest: Seq<Event>,
    out: Option<Seq<u8>>,
)
    requires
        leads(m, es, m2),
        is_call(m2, rest, out),
    ensures
        is_call(m, es + rest, out),
        run(m, es + rest) == run(m2, rest),
    decreases es.len(),
{
    if es.len() > 0 {
        lemma_leads_then_call(apply(m, es[0]), es.drop_first(), m2, rest, out);
        assert((es + rest).drop_first() =~= es.drop_first() + rest);
    } else {
        assert(es + rest =~= rest);
    }
}

/// One more continuing event extends what leads from `m`.
pub proof fn lemma_leads_push(m: ReaderModel, es: Seq<Event>, m2: ReaderModel, e: Event)
    requires
        leads(m, es, m2),
        enabled(m2, e),
        continues(e),
    ensures
        leads(m, es.push(e), apply(m2, e)),
    decreases es.len(),
{
    if es.len() > 0 {
        lemma_leads_push(apply(m, es[0]), es.drop_first(), m2, e);
        assert(es.push(e)[0] == es[0]);
        assert(es.push(e).drop_first() =~= es.drop_first().push(e));
    } else {
        assert(es.push(e)[0] == e);
        assert(leads(apply(m, e), Seq::<Event>::empty(), apply(m2, e)));
        assert(es.push(e).drop_first() =~= Seq::<Event>::empty());
    }
}

/// Once the reader is exhausted, a read call meets nothing, returns zero bytes
/// without error and leaves the reader exhausted, however often it is made.
pub proof fn lemma_exhausted_call(m: ReaderModel, es: Seq<Event>, out: Option<Seq<u8>>)
    requires
        exhausted(m),
        is_call(m, es, out),
    ensures
        es.len() == 0,
        out == Some(Seq::<u8>::empty()),
        run(m, es) == m,
{
    if es.len() > 0 {
        assert(!enabled(m, es[0]));
    }
}

/// A read call whose open handle fails returns that failure at once and leaves
/// the reader as it was, with the same source open; the next call reads from
/// the same handle again.
pub proof fn lemma_read_failure_keeps_state(m: ReaderModel, es: Seq<Event>, out: Option<Seq<u8>>)
    requires
        m.current is Some,
        is_call(m, es, out),
        es.len() > 0,
        es[0] is ReadFailed,
    ensures
        es.len() == 1,
        out is None,
        run(m, es) == m,
{
    assert(run(apply(m, es[0]), es.drop_first()) == run(m, es));
    assert(es.drop_first() =~= Seq::<Event>::empty());
}

/// A read call only moves forward: the sources still pending after it are a
/// tail of those before, so a source once taken, whether it opened or not, is
/// never taken again; a call that returns bytes leaves open the source they
/// came from, which is the last source it opened or else the one open before;
/// a call that returns bytes leaves them at the end of what that source's
/// handle has handed out; a call that returns no bytes leaves the reader
/// exhausted; a call whose handle fails leaves that handle open with nothing
/// more handed out; and a call that fails to open leaves no source open.
pub proof fn lemma_call_moves_forward(m: ReaderModel, es: Seq<Event>, out: Option<Seq<u8>>)
    requires
        is_call(m, es, out),
    ensures
        ({
            let m2 = run(m, es);
            let k = m.pending.len() - m2.pending.len();
            &&& 0 <= k <= m.pending.len()
            &&& m2.pending == m.pending.skip(k)
            &&& m2.current is Some ==> m2.current == (if k == 0 {
                m.current
            } else {
                Some(m.pending[k - 1])
            })
            &&& out == Some(Seq::<u8>::empty()) ==> exhausted(m2)
            &&& (out is Some && out->0.len() > 0) ==> m2.current is Some && m2.taken == taken_before(m, m2) + out->0
            &&& (es.len() > 0 && es.last() is ReadFailed) ==> m2.current is Some && m2.taken == taken_before(m, m2)
            &&& (es.len() > 0 && es.last() is OpenFailed) ==> m2.current is None && failed_open_of_file(m, m2)
            &&& out is None ==> es.len() > 0 && (es.last() is OpenFailed || es.last() is ReadFailed)
        }),
    decreases es.len(),
{
    if es.len() == 0 {
        assert(m.pending.skip(0) =~= m.pending);
    } else {
        let e = es[0];
        let m1 = apply(m, e);
        assert(run(m, es) == run(m1, es.drop_first()));
        if continues(e) {
            lemma_call_moves_forward(m1, es.drop_first(), out);
            let m2 = run(m, es);
            let k1 = m1.pending.len() - m2.pending.len();
            if e is Opened {
                assert(m1.taken + Seq::<u8>::empty() =~= m1.taken);
                assert(m2.pending =~= m.pending.skip(k1 + 1));
                if k1 > 0 {
                    assert(m1.pending[k1 - 1] == m.pending[k1]);
                }
            }
            if es.drop_first().len() > 0 {
                assert(es.drop_first().last() == es.last());
            }
        } else {
            assert(es.drop_first() =~= Seq::<Event>::empty());
            assert(run(m1, Seq::<Event>::empty()) == m1);
            if e is OpenFailed {
                assert(m1.pending =~= m.pending.skip(1));
            } else {
                assert(m.pending.skip(0) =~= m.pending);
            }
        }
    }
}

/// Reading concatenates what the handles hand out: after a read call, what
/// the handles have handed out is what they had before, followed by exactly
/// the bytes the call returned. So from a new reader, the bytes of all calls
/// together are the records of the handles, in the order their sources were
/// opened, each closed only after its end of data.
pub proof fn lemma_call_keeps_order(m: ReaderModel, es: Seq<Event>, out: Option<Seq<u8>>)
    requires
        is_call(m, es, out),
        m.current is None ==> m.taken == Seq::<u8>::empty(),
    ensures
        handed_out(run(m, es)) == handed_out(m) + out_bytes(out),
        run(m, es).current is None ==> run(m, es).taken == Seq::<u8>::empty(),
        m.finished.is_prefix_of(run(m, es).finished),
    decreases es.len(),
{
    if es.len() == 0 {
        assert(handed_out(m) + out_bytes(out) =~= handed_out(m));
    } else {
        let e = es[0];
        let m1 = apply(m, e);
        assert(run(m, es) == run(m1, es.drop_first()));
        if continues(e) {
            if e is Opened {
                assert(handed_out(m1) =~= handed_out(m));
            } else {
                assert(m1.finished.drop_last() =~= m.finished);
                assert(handed_out(m1) =~= handed_out(m));
            }
            lemma_call_keeps_order(m1, es.drop_first(), out);
        } else {
            assert(es.drop_first() =~= Seq::<Event>::empty());
            assert(run(m1, Seq::<Event>::empty()) == m1);
            assert(handed_out(m1) =~= handed_out(m) + out_bytes(out));
        }
    }
}

} // verus!
