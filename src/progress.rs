use vstd::prelude::*;

verus! {

/// What the scheduler reports at the yield point between two passes.
#[derive(Debug, Clone, Copy, PartialEq, Eq, Structural)]
pub enum FrameEvent {
    /// A new frame may be drawn.
    Frame,
    /// The render was called off.
    Cancel,
}

/// What the render loop is to do next.
#[derive(Debug, Clone, Copy, PartialEq, Eq, Structural)]
pub enum FrameAction {
    /// Trace the pass with this index, average, filter and show the image,
    /// then yield.
    TracePass(u32),
    /// Schedule nothing more.
    Stop,
}

/// `q` and `a` are the loop state and the action that follow `event` in
/// state `p`. A frame hands out the next pass while passes remain and stops
/// the loop once all are done; a cancellation stops it at once. A stopped
/// loop stays as it is.
pub open spec fn steps_to(p: Progress, event: FrameEvent, q: Progress, a: FrameAction) -> bool {
    &&& q.target() == p.target()
    &&& if p.has_stopped() {
        a == FrameAction::Stop && q == p
    } else if event == FrameEvent::Cancel {
        a == FrameAction::Stop && q.has_stopped() && q.passes_done() == p.passes_done()
    } else if p.passes_done() < p.target() {
        &&& a == FrameAction::TracePass(p.passes_done() as u32)
        &&& !q.has_stopped()
        &&& q.passes_done() == p.passes_done() + 1
    } else {
        a == FrameAction::Stop && q.has_stopped() && q.passes_done() == p.passes_done()
    }
}

/// The progressive render loop: one pass per frame until `samples` passes
/// are done or the render is called off.
#[derive(Debug, Clone, Copy, PartialEq, Eq, Structural)]
pub struct Progress {
    samples: u32,
    done: u32,
    stopped: bool,
}

impl Progress {
    /// Passes the render is to make.
    pub closed spec fn target(&self) -> nat {
        self.samples as nat
    }

    /// Passes handed out so far.
    pub closed spec fn passes_done(&self) -> nat {
        self.done as nat
    }

    /// Whether the loop has stopped for good.
    pub closed spec fn has_stopped(&self) -> bool {
        self.stopped
    }

    /// No more passes are handed out than were asked for.
    pub open spec fn wf(&self) -> bool {
        self.passes_done() <= self.target()
    }

    /// A loop that is to make `samples` passes and has made none.
    pub fn new(samples: u32) -> (r: Progress)
        ensures
            r.wf(),
            r.target() == samples,
            r.passes_done() == 0,
            !r.has_stopped(),
    {
        Progress { samples, done: 0, stopped: false }
    }

    /// Passes handed out so far.
    pub fn passes(&self) -> (r: u32)
        ensures
            r == self.passes_done(),
    {
        self.done
    }

    /// Whether the loop has stopped for good.
    pub fn is_stopped(&self) -> (r: bool)
        ensures
            r == self.has_stopped(),
    {
        self.stopped
    }

    /// Decides the next step at a yield point. A frame hands out the next
    /// pass while passes remain and stops the loop once all are done; a
    /// cancellation stops it at once. A stopped loop stays stopped.
    pub fn on_event(&mut self, event: FrameEvent) -> (r: FrameAction)
        requires
            old(self).wf(),
        ensures
            final(self).wf(),
            steps_to(*old(self), event, *final(self), r),
    {
        if self.stopped {
            return FrameAction::Stop;
        }
        match event {
            FrameEvent::Cancel => {
                self.stopped = true;
                FrameAction::Stop
            },
            FrameEvent::Frame => {
                if self.done < self.samples {
                    let index = self.done;
                    self.done = self.done + 1;
                    FrameAction::TracePass(index)
                } else {
                    self.stopped = true;
                    FrameAction::Stop
                }
            },
        }
    }
}

proof fn lemma_frames_prefix(states: Seq<Progress>, actions: Seq<FrameAction>, k: int)
    requires
        states.len() == actions.len() + 1,
        0 <= k <= actions.len(),
        states[0].wf(),
        states[0].passes_done() == 0,
        !states[0].has_stopped(),
        forall|i: int|
            0 <= i < actions.len() ==> steps_to(
                states[i],
                FrameEvent::Frame,
                states[i + 1],
                #[trigger] actions[i],
            ),
    ensures
        states[k].target() == states[0].target(),
        states[k].passes_done() == if k <= states[0].target() {
            k
        } else {
            states[0].target() as int
        },
        states[k].has_stopped() <==> k > states[0].target(),
        forall|i: int|
            0 <= i < k ==> #[trigger] actions[i] == if i < states[0].target() {
                FrameAction::TracePass(i as u32)
            } else {
                FrameAction::Stop
            },
    decreases k,
{
    if k > 0 {
        lemma_frames_prefix(states, actions, k - 1);
        assert(steps_to(states[k - 1], FrameEvent::Frame, states[k], actions[k - 1]));
    }
}

/// Answering frames only, a loop set up for some number of passes hands out
/// the passes numbered from zero in order, one per frame, then stops and
/// hands out nothing more: it makes exactly the passes asked for.
pub proof fn lemma_frames_make_every_pass(states: Seq<Progress>, actions: Seq<FrameAction>)
    requires
        states.len() == actions.len() + 1,
        states[0].wf(),
        states[0].passes_done() == 0,
        !states[0].has_stopped(),
        forall|i: int|
            0 <= i < actions.len() ==> steps_to(
                states[i],
                FrameEvent::Frame,
                states[i + 1],
                #[trigger] actions[i],
            ),
    ensures
        forall|i: int|
            0 <= i < actions.len() ==> #[trigger] actions[i] == if i < states[0].target() {
                FrameAction::TracePass(i as u32)
            } else {
                FrameAction::Stop
            },
        states.last().passes_done() == if actions.len() <= states[0].target() {
            actions.len() as int
        } else {
            states[0].target() as int
        },
{
    lemma_frames_prefix(states, actions, actions.len() as int);
}

} // verus!
