//! The pass in the form that hands a sink all of a sound log or nothing.
use vstd::prelude::*;
use crate::event::{run, Event, Fault, Outcome};
use crate::recorder::record;
use crate::tree_sink::{balanced, is_balanced, replay, SinkCall, TreeSink};

verus! {

/// What `process_checked` answers for a pass with this outcome: the fault of
/// the pass, else `Unbalanced` where its calls do not nest, else success.
pub open spec fn verdict(outcome: Outcome) -> Result<(), Fault> {
    match outcome.fault {
        Some(fault) => Err(fault),
        None => if balanced(outcome.calls) {
            Ok(())
        } else {
            Err(Fault::Unbalanced)
        },
    }
}

/// Runs the pass over `events` and hands `sink` its calls only if the whole
/// log is sound.
///
/// The pass is first run on a recorder. Where it reaches the end without a
/// fault and its calls nest properly, `sink` receives all of them, in order,
/// after what it had received before. Otherwise `sink` receives nothing, and
/// the answer is the fault of the pass, or `Unbalanced` where the pass found
/// none and the calls do not nest.
pub fn process_checked<S: TreeSink>(sink: &mut S, events: Vec<Event>) -> (res: Result<(), Fault>)
    ensures
        res == verdict(run(events@)),
        final(sink).calls() == old(sink).calls() + (if res is Ok {
            run(events@).calls
        } else {
            Seq::empty()
        }),
{
    let (calls, fault) = record(events);
    proof {
        assert(sink.calls() + Seq::<SinkCall>::empty() =~= sink.calls());
    }
    match fault {
        Some(fault) => Err(fault),
        None => {
            if is_balanced(&calls) {
                replay(sink, calls);
                Ok(())
            } else {
                Err(Fault::Unbalanced)
            }
        },
    }
}

} // verus!
