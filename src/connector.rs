use vstd::prelude::*;
use crate::framer::{framed_message, retained, Framer};

verus! {

/// What one read on the upstream connection gave.
pub enum ReadOutcome {
    /// The bytes read; an empty read means the peer closed the connection.
    Data(Vec<u8>),
    /// The read failed.
    Failed,
}

/// What the connector's task does next.
pub enum ConnectorAction {
    /// Read again; no message is complete yet.
    KeepReading,
    /// Forward this message to the broker, then read again.
    Deliver(Vec<u8>),
    /// Report the loss of the upstream connection once, then end the task.
    ReportLost,
}

/// Whether a read outcome ends the session: end of stream or an error.
pub open spec fn ends_session(o: ReadOutcome) -> bool {
    match o {
        ReadOutcome::Data(d) => d@.len() == 0,
        ReadOutcome::Failed => true,
    }
}

/// The kind of action a connector takes, without its payload.
pub enum StepKind {
    KeepReading,
    Deliver(Seq<u8>),
    ReportLost,
}

/// The action a session takes on read outcome `o` with `buf` accumulated.
pub open spec fn read_step(buf: Seq<u8>, o: ReadOutcome) -> StepKind {
    if ends_session(o) {
        StepKind::ReportLost
    } else {
        match framed_message(buf + o->Data_0@) {
            Some(m) => StepKind::Deliver(m),
            None => StepKind::KeepReading,
        }
    }
}

/// What the buffer holds after a read outcome that does not end the session.
pub open spec fn read_rest(buf: Seq<u8>, o: ReadOutcome) -> Seq<u8> {
    retained(buf + o->Data_0@)
}

/// The kind of an executable action.
pub open spec fn action_kind(a: ConnectorAction) -> StepKind {
    match a {
        ConnectorAction::KeepReading => StepKind::KeepReading,
        ConnectorAction::Deliver(m) => StepKind::Deliver(m@),
        ConnectorAction::ReportLost => StepKind::ReportLost,
    }
}

/// The actions of a session from buffer `buf` over the read outcomes `reads`,
/// which stop at the first outcome that ends it.
pub open spec fn session_steps(buf: Seq<u8>, reads: Seq<ReadOutcome>) -> Seq<StepKind>
    decreases reads.len(),
{
    if reads.len() == 0 {
        Seq::empty()
    } else if ends_session(reads[0]) {
        seq![StepKind::ReportLost]
    } else {
        seq![read_step(buf, reads[0])] + session_steps(read_rest(buf, reads[0]), reads.drop_first())
    }
}

/// How many loss reports a sequence of actions holds.
pub open spec fn lost_reports(steps: Seq<StepKind>) -> nat
    decreases steps.len(),
{
    if steps.len() == 0 {
        0
    } else {
        (if steps[0] is ReportLost { 1nat } else { 0nat }) + lost_reports(steps.drop_first())
    }
}

/// A session reports the loss of its connection exactly once when some read
/// ends it, and never while every read brings bytes.
pub proof fn lemma_one_loss_per_session(buf: Seq<u8>, reads: Seq<ReadOutcome>)
    ensures
        lost_reports(session_steps(buf, reads)) == (if exists|i: int|
            0 <= i < reads.len() && #[trigger] ends_session(reads[i]) {
            1nat
        } else {
            0nat
        }),
    decreases reads.len(),
{
    if reads.len() == 0 {
    } else if ends_session(reads[0]) {
        let steps = seq![StepKind::ReportLost];
        assert(steps.drop_first() =~= Seq::<StepKind>::empty());
        assert(lost_reports(steps.drop_first()) == 0);
    } else {
        let rest = reads.drop_first();
        let tail = session_steps(read_rest(buf, reads[0]), rest);
        lemma_one_loss_per_session(read_rest(buf, reads[0]), rest);
        let steps = seq![read_step(buf, reads[0])] + tail;
        assert(steps.drop_first() =~= tail);
        assert(!(steps[0] is ReportLost));
        assert((exists|i: int| 0 <= i < reads.len() && #[trigger] ends_session(reads[i])) == (
        exists|i: int| 0 <= i < rest.len() && #[trigger] ends_session(rest[i]))) by {
            if exists|i: int| 0 <= i < reads.len() && #[trigger] ends_session(reads[i]) {
                let i = choose|i: int| 0 <= i < reads.len() && #[trigger] ends_session(reads[i]);
                assert(rest[i - 1] == reads[i]);
            }
            if exists|i: int| 0 <= i < rest.len() && #[trigger] ends_session(rest[i]) {
                let i = choose|i: int| 0 <= i < rest.len() && #[trigger] ends_session(rest[i]);
                assert(reads[i + 1] == rest[i]);
            }
        }
    }
}

/// One session on the upstream connection: from the connect attempt to the
/// report of its loss.
pub struct Connector {
    framer: Framer,
    finished: bool,
}

impl Connector {
    /// The bytes accumulated and not yet framed.
    pub closed spec fn buffer(&self) -> Seq<u8> {
        self.framer@
    }

    /// Whether the loss has been reported, which ends the session.
    pub closed spec fn is_finished(&self) -> bool {
        self.finished
    }

    /// The framer's buffer stays within its threshold.
    pub closed spec fn wf(&self) -> bool {
        self.framer.wf()
    }

    /// A session that has read nothing yet.
    pub fn new() -> (r: Connector)
        ensures
            r.wf(),
            r.buffer() == Seq::<u8>::empty(),
            !r.is_finished(),
    {
        Connector { framer: Framer::new(), finished: false }
    }

    /// Whether the loss has been reported.
    pub fn finished(&self) -> (r: bool)
        ensures
            r == self.is_finished(),
    {
        self.finished
    }

    /// The connect attempt failed: the loss is reported and the session ends.
    pub fn on_connect_failed(&mut self) -> (r: ConnectorAction)
        requires
            old(self).wf(),
            !old(self).is_finished(),
        ensures
            r is ReportLost,
            final(self).wf(),
            final(self).is_finished(),
    {
        self.finished = true;
        ConnectorAction::ReportLost
    }

    /// A read finished with `outcome`. Bytes go through the framer, and a
    /// message that completes is delivered; end of stream or an error reports
    /// the loss and ends the session.
    pub fn on_read(&mut self, outcome: ReadOutcome) -> (r: ConnectorAction)
        requires
            old(self).wf(),
            !old(self).is_finished(),
        ensures
            final(self).wf(),
            action_kind(r) == read_step(old(self).buffer(), outcome),
            final(self).is_finished() == ends_session(outcome),
            !ends_session(outcome) ==> final(self).buffer() == read_rest(old(self).buffer(), outcome),
    {
        match outcome {
            ReadOutcome::Data(chunk) => {
                if chunk.len() == 0 {
                    self.finished = true;
                    ConnectorAction::ReportLost
                } else {
                    match self.framer.push(chunk.as_slice()) {
                        Some(m) => ConnectorAction::Deliver(m),
                        None => ConnectorAction::KeepReading,
                    }
                }
            },
            ReadOutcome::Failed => {
                self.finished = true;
                ConnectorAction::ReportLost
            },
        }
    }
}

} // verus!
