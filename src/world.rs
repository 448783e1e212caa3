//! A model of the outside, as a script of answers for each source, and the
//! read call that the reader's rules give under such a script (`serve`).
//! Everything here is proved of that model: `serve` is a call in the sense of
//! `is_call`, the kind of call `FileInput::read` makes, but nothing here shows
//! that a given `read` follows a given script.
use vstd::prelude::*;

use crate::model::{apply, continues, enabled, exhausted, is_call, outcome, run, Event, ReaderModel};
use crate::source::Source;

verus! {

/// One answer of an open handle to a read.
pub enum Answer {
    /// These bytes.
    Bytes(Seq<u8>),
    /// A failure.
    Fails,
}

/// How the outside treats one source: whether it opens, and what its handle
/// answers to each read; after the last answer the handle reports its end of
/// data.
pub struct Script {
    pub opens: bool,
    pub answers: Seq<Answer>,
}

/// The sources still pending with their scripts, the open source with the
/// answers its handle has yet to give, what that handle has handed out, and
/// what the handles closed before it handed out.
pub struct World {
    pub pending: Seq<(Source, Script)>,
    pub current: Option<(Source, Seq<Answer>)>,
    pub taken: Seq<u8>,
    pub finished: Seq<Seq<u8>>,
}

/// Whether no answer hands over zero bytes: a handle says it has no more data
/// only once its answers are used up.
pub open spec fn answers_wf(a: Seq<Answer>) -> bool {
    forall|i: int| 0 <= i < a.len() && #[trigger] a[i] is Bytes ==> a[i]->Bytes_0.len() > 0
}

/// Whether the scripts can be those of a strategy and its handles: no answer
/// is empty, and standard input always opens.
pub open spec fn world_wf(w: World) -> bool {
    &&& forall|i: int| 0 <= i < w.pending.len() ==> answers_wf(#[trigger] w.pending[i].1.answers)
    &&& forall|i: int| 0 <= i < w.pending.len() && #[trigger] w.pending[i].0 is Stdin ==> w.pending[i].1.opens
    &&& w.current is Some ==> answers_wf((w.current->0).1)
}

/// What the reader holds when the outside is `w`.
pub open spec fn model_of(w: World) -> ReaderModel {
    ReaderModel {
        pending: w.pending.map_values(|p: (Source, Script)| p.0),
        current: match w.current {
            Some(c) => Some(c.0),
            None => None,
        },
        taken: w.taken,
        finished: w.finished,
    }
}

pub open spec fn world_measure(w: World) -> nat {
    2 * w.pending.len() + if w.current is Some { 1nat } else { 0nat }
}

/// The events of one read call when the outside is `w`, and the outside after
/// it.
pub open spec fn serve(w: World) -> (Seq<Event>, World)
    decreases world_measure(w),
{
    match w.current {
        None => if w.pending.len() == 0 {
            (Seq::empty(), w)
        } else {
            let head = w.pending[0];
            let rest = w.pending.drop_first();
            if !head.1.opens {
                (seq![Event::OpenFailed], World { pending: rest, current: None, taken: Seq::empty(), finished: w.finished })
            } else {
                let r = serve(
                    World { pending: rest, current: Some((head.0, head.1.answers)), taken: Seq::empty(), finished: w.finished },
                );
                (seq![Event::Opened] + r.0, r.1)
            }
        },
        Some(c) => if c.1.len() == 0 {
            let r = serve(World { pending: w.pending, current: None, taken: Seq::empty(), finished: w.finished.push(w.taken) });
            (seq![Event::Data(Seq::empty())] + r.0, r.1)
        } else {
            let rest = Some((c.0, c.1.drop_first()));
            match c.1[0] {
                Answer::Bytes(b) => (
                    seq![Event::Data(b)],
                    World { pending: w.pending, current: rest, taken: w.taken + b, finished: w.finished },
                ),
                Answer::Fails => (
                    seq![Event::ReadFailed],
                    World { pending: w.pending, current: rest, taken: w.taken, finished: w.finished },
                ),
            }
        },
    }
}

/// What a read call that meets `es` returns.
pub open spec fn output(es: Seq<Event>) -> Option<Seq<u8>> {
    if es.len() == 0 {
        Some(Seq::empty())
    } else {
        outcome(es.last())
    }
}

/// The bytes that `answers` hand over, in order.
pub open spec fn answer_bytes(a: Seq<Answer>) -> Seq<u8>
    decreases a.len(),
{
    if a.len() == 0 {
        Seq::empty()
    } else {
        let first = match a[0] {
            Answer::Bytes(b) => b,
            Answer::Fails => Seq::empty(),
        };
        first + answer_bytes(a.drop_first())
    }
}

/// The bytes that the sources `p` hand over, one after the other; a source that
/// does not open hands over none.
pub open spec fn pending_bytes(p: Seq<(Source, Script)>) -> Seq<u8>
    decreases p.len(),
{
    if p.len() == 0 {
        Seq::empty()
    } else {
        (if p[0].1.opens { answer_bytes(p[0].1.answers) } else { Seq::empty() }) + pending_bytes(
            p.drop_first(),
        )
    }
}

/// The bytes still to come from `w`: the rest of the open source, then the
/// pending sources in order.
pub open spec fn to_come(w: World) -> Seq<u8> {
    (match w.current {
        Some(c) => answer_bytes(c.1),
        None => Seq::empty(),
    }) + pending_bytes(w.pending)
}

/// The bytes a read call that meets `es` places in the caller's buffer.
pub open spec fn output_bytes(es: Seq<Event>) -> Seq<u8> {
    match output(es) {
        Some(b) => b,
        None => Seq::empty(),
    }
}

proof fn lemma_model_drop_first(w: World)
    requires
        w.pending.len() > 0,
    ensures
        w.pending.drop_first().map_values(|p: (Source, Script)| p.0) =~= model_of(w).pending.drop_first(),
        model_of(w).pending[0] == w.pending[0].0,
{
}

/// The events that `serve` gives are one read call in the sense of `is_call`,
/// the kind `FileInput::read` makes, ending in the state that the script
/// leaves behind.
pub proof fn lemma_serve_is_call(w: World)
    requires
        world_wf(w),
    ensures
        is_call(model_of(w), serve(w).0, output(serve(w).0)),
        run(model_of(w), serve(w).0) == model_of(serve(w).1),
        world_wf(serve(w).1),
        w.current is Some ==> serve(w).0.len() > 0,
    decreases world_measure(w),
{
    let m = model_of(w);
    let (es, w2) = serve(w);
    match w.current {
        None => {
            if w.pending.len() == 0 {
            } else {
                let head = w.pending[0];
                let rest = w.pending.drop_first();
                lemma_model_drop_first(w);
                if !head.1.opens {
                    let w1 = World { pending: rest, current: None, taken: Seq::empty(), finished: w.finished };
                    assert(es.drop_first() =~= Seq::<Event>::empty());
                    assert(apply(m, Event::OpenFailed) == model_of(w1));
                    assert(run(apply(m, Event::OpenFailed), Seq::<Event>::empty()) == model_of(w1));
                    assert(world_wf(w1)) by {
                        assert forall|i: int| 0 <= i < rest.len() implies answers_wf(
                            #[trigger] rest[i].1.answers,
                        ) by {
                            assert(rest[i] == w.pending[i + 1]);
                        }
                    }
                } else {
                    let w1 = World { pending: rest, current: Some((head.0, head.1.answers)), taken: Seq::empty(), finished: w.finished };
                    assert(world_wf(w1)) by {
                        assert(answers_wf(w.pending[0].1.answers));
                        assert forall|i: int| 0 <= i < rest.len() implies answers_wf(
                            #[trigger] rest[i].1.answers,
                        ) by {
                            assert(rest[i] == w.pending[i + 1]);
                        }
                    }
                    lemma_serve_is_call(w1);
                    let r = serve(w1);
                    assert(apply(m, Event::Opened) == model_of(w1));
                    assert(es[0] == Event::Opened);
                    assert(es.drop_first() =~= r.0);
                    assert(es.last() == r.0.last());
                    assert(run(m, es) == run(apply(m, es[0]), es.drop_first()));
                }
            }
        },
        Some(c) => {
            if c.1.len() == 0 {
                let w1 = World { pending: w.pending, current: None, taken: Seq::empty(), finished: w.finished.push(w.taken) };
                lemma_serve_is_call(w1);
                let r = serve(w1);
                assert(apply(m, Event::Data(Seq::empty())) == model_of(w1));
                assert(es[0] == Event::Data(Seq::empty()));
                assert(es.drop_first() =~= r.0);
                if r.0.len() > 0 {
                    assert(es.last() == r.0.last());
                    assert(run(m, es) == run(apply(m, es[0]), es.drop_first()));
                }
            } else {
                assert(es.drop_first() =~= Seq::<Event>::empty());
                assert(answers_wf(c.1));
                assert(answers_wf(c.1.drop_first())) by {
                    assert forall|i: int|
                        0 <= i < c.1.drop_first().len() && #[trigger] c.1.drop_first()[i] is Bytes implies c.1.drop_first()[i]->Bytes_0.len()
                        > 0 by {
                        assert(c.1.drop_first()[i] == c.1[i + 1]);
                    }
                }
                assert(model_of(w2).pending == m.pending);
                assert(apply(m, es[0]) == model_of(w2));
                assert(run(m, es) == run(apply(m, es[0]), Seq::<Event>::empty()));
                match c.1[0] {
                    Answer::Bytes(b) => {
                        assert(b.len() > 0);
                        assert(!continues(Event::Data(b)));
                    },
                    Answer::Fails => {},
                }
            }
        },
    }
}

/// In the model, calls concatenate the sources: each call that `serve`
/// gives returns the front of the bytes still to come and leaves the rest to
/// come, and returns no bytes only once the reader is exhausted, when nothing
/// is left to come. So calls until the first that returns none yield the bytes
/// of every source in order, however the handles cut them into pieces.
pub proof fn lemma_read_returns_front(w: World)
    requires
        world_wf(w),
    ensures
        to_come(w) == output_bytes(serve(w).0) + to_come(serve(w).1),
        output(serve(w).0) == Some(Seq::<u8>::empty()) ==> exhausted(model_of(serve(w).1))
            && to_come(w) == Seq::<u8>::empty(),
    decreases world_measure(w),
{
    lemma_serve_is_call(w);
    let (es, w2) = serve(w);
    match w.current {
        None => {
            if w.pending.len() == 0 {
                assert(to_come(w) =~= Seq::<u8>::empty());
                assert(output_bytes(es) + to_come(w2) =~= Seq::<u8>::empty());
            } else {
                let head = w.pending[0];
                let rest = w.pending.drop_first();
                assert(pending_bytes(w.pending) == (if head.1.opens {
                    answer_bytes(head.1.answers)
                } else {
                    Seq::<u8>::empty()
                }) + pending_bytes(rest));
                if !head.1.opens {
                    assert(es.last() == Event::OpenFailed);
                    assert(to_come(w) =~= output_bytes(es) + to_come(w2));
                } else {
                    let w1 = World { pending: rest, current: Some((head.0, head.1.answers)), taken: Seq::empty(), finished: w.finished };
                    assert(world_wf(w1)) by {
                        assert(answers_wf(w.pending[0].1.answers));
                        assert forall|i: int| 0 <= i < rest.len() implies answers_wf(
                            #[trigger] rest[i].1.answers,
                        ) by {
                            assert(rest[i] == w.pending[i + 1]);
                        }
                    }
                    lemma_read_returns_front(w1);
                    lemma_serve_is_call(w1);
                    let r = serve(w1);
                    assert(es.last() == r.0.last());
                    assert(output(es) == output(r.0));
                    assert(to_come(w) =~= to_come(w1));
                }
            }
        },
        Some(c) => {
            if c.1.len() == 0 {
                let w1 = World { pending: w.pending, current: None, taken: Seq::empty(), finished: w.finished.push(w.taken) };
                lemma_read_returns_front(w1);
                let r = serve(w1);
                if r.0.len() > 0 {
                    assert(es.last() == r.0.last());
                } else {
                    assert(es.last() == Event::Data(Seq::empty()));
                }
                assert(output(es) == output(r.0));
                assert(answer_bytes(c.1) =~= Seq::<u8>::empty());
                assert(to_come(w) =~= to_come(w1));
            } else {
                assert(es.last() == es[0]);
                assert(answers_wf(c.1));
                match c.1[0] {
                    Answer::Bytes(b) => {
                        assert(b.len() > 0);
                        assert(answer_bytes(c.1) == b + answer_bytes(c.1.drop_first()));
                        assert(to_come(w) =~= output_bytes(es) + to_come(w2));
                    },
                    Answer::Fails => {
                        assert(answer_bytes(c.1) =~= answer_bytes(c.1.drop_first()));
                        assert(to_come(w) =~= output_bytes(es) + to_come(w2));
                    },
                }
            }
        },
    }
}

/// Whether the source opens and its handle has no data at all.
pub open spec fn is_empty_source(p: (Source, Script)) -> bool {
    p.1.opens && p.1.answers.len() == 0
}

/// The sources `p` without those that open with no data, in order.
pub open spec fn without_empty(p: Seq<(Source, Script)>) -> Seq<(Source, Script)>
    decreases p.len(),
{
    if p.len() == 0 {
        p
    } else if is_empty_source(p[0]) {
        without_empty(p.drop_first())
    } else {
        seq![p[0]] + without_empty(p.drop_first())
    }
}

proof fn lemma_output_after_continue(e: Event, r: Seq<Event>)
    requires
        continues(e),
        r.len() > 0 || e is Data,
    ensures
        output(seq![e] + r) == output(r),
{
    if r.len() > 0 {
        assert((seq![e] + r).last() == r.last());
    } else {
        assert(seq![e] + r =~= seq![e]);
    }
}

/// In the model, empty sources go unseen: where the pending sources hold
/// sources that open with no data, the call that `serve` gives returns what it
/// gives without them, with the same source open and the same bytes handed out
/// by it afterwards; and the two stay so related, so the next call agrees too.
pub proof fn lemma_empty_sources_unseen(w1: World, w2: World)
    requires
        w2.current == w1.current,
        w2.pending == without_empty(w1.pending),
        w2.taken == w1.taken,
        w1.current is None ==> w1.taken == Seq::<u8>::empty(),
    ensures
        output(serve(w1).0) == output(serve(w2).0),
        serve(w2).1.current == serve(w1).1.current,
        serve(w2).1.pending == without_empty(serve(w1).1.pending),
        serve(w2).1.taken == serve(w1).1.taken,
        serve(w1).1.current is None ==> serve(w1).1.taken == Seq::<u8>::empty(),
        model_of(serve(w2).1).current == model_of(serve(w1).1).current,
        model_of(serve(w2).1).taken == model_of(serve(w1).1).taken,
    decreases world_measure(w1),
{
    let (es1, v1) = serve(w1);
    let (es2, v2) = serve(w2);
    match w1.current {
        Some(c) => {
            if c.1.len() == 0 {
                let x1 = World { pending: w1.pending, current: None, taken: Seq::empty(), finished: w1.finished.push(w1.taken) };
                let x2 = World { pending: w2.pending, current: None, taken: Seq::empty(), finished: w2.finished.push(w2.taken) };
                lemma_empty_sources_unseen(x1, x2);
                lemma_output_after_continue(Event::Data(Seq::empty()), serve(x1).0);
                lemma_output_after_continue(Event::Data(Seq::empty()), serve(x2).0);
            }
        },
        None => {
            if w1.pending.len() == 0 {
            } else {
                let head = w1.pending[0];
                let rest = w1.pending.drop_first();
                if is_empty_source(head) {
                    let a1 = World { pending: rest, current: Some((head.0, head.1.answers)), taken: Seq::empty(), finished: w1.finished };
                    let b1 = World { pending: rest, current: None, taken: Seq::empty(), finished: w1.finished.push(Seq::empty()) };
                    assert(serve(a1).0 == seq![Event::Data(Seq::empty())] + serve(b1).0);
                    assert(serve(a1).1 == serve(b1).1);
                    lemma_empty_sources_unseen(b1, w2);
                    lemma_output_after_continue(Event::Data(Seq::empty()), serve(b1).0);
                    lemma_output_after_continue(Event::Opened, serve(a1).0);
                } else {
                    assert(w2.pending == seq![head] + without_empty(rest));
                    assert(w2.pending[0] == head);
                    assert(w2.pending.drop_first() =~= without_empty(rest));
                    if head.1.opens {
                        let a1 = World { pending: rest, current: Some((head.0, head.1.answers)), taken: Seq::empty(), finished: w1.finished };
                        let a2 = World {
                            pending: without_empty(rest),
                            current: Some((head.0, head.1.answers)),
                            taken: Seq::empty(),
                            finished: w2.finished,
                        };
                        lemma_empty_sources_unseen(a1, a2);
                        lemma_output_after_continue(Event::Opened, serve(a1).0);
                        lemma_output_after_continue(Event::Opened, serve(a2).0);
                    }
                }
            }
        },
    }
}

/// In the model, a handle's failure is retried in place: the call that
/// `serve` gives returns the failure, the same source stays open, and the next
/// call gets the handle's next answer.
pub proof fn lemma_failure_retried_in_place(w: World)
    requires
        w.current is Some,
        (w.current->0).1.len() > 0,
        (w.current->0).1[0] is Fails,
    ensures
        output(serve(w).0) is None,
        serve(w).1 == (World {
            pending: w.pending,
            current: Some(((w.current->0).0, (w.current->0).1.drop_first())),
            taken: w.taken,
            finished: w.finished,
        }),
        model_of(serve(w).1) == model_of(w),
{
}

} // verus!
