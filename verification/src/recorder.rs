//! A recording of labelled text, kept so that it can be written out later.

use vstd::prelude::*;
use crate::formatter::poppable;
use crate::formatter::popped;
use crate::formatter::pushed;
use crate::formatter::restylable;
use crate::formatter::writable;
use crate::formatter::written;
use crate::formatter::written_raw;
use crate::formatter::ColorFormatter;
use crate::formatter::FormatterView;
use crate::sanitize::write_all;

verus! {

/// One recorded step.
#[derive(Debug)]
pub enum FormatOp {
    /// A label was opened.
    PushLabel(String),
    /// The label opened last was closed.
    PopLabel,
    /// Text was written.
    Write(Vec<u8>),
    /// Bytes were written that must reach the output as they are.
    RawEscapeSequence(Vec<u8>),
}

/// A recorded step as a mathematical value.
pub enum FormatOpView {
    PushLabel(Seq<char>),
    PopLabel,
    Write(Seq<u8>),
    RawEscapeSequence(Seq<u8>),
}

impl View for FormatOp {
    type V = FormatOpView;

    open spec fn view(&self) -> FormatOpView {
        match self {
            FormatOp::PushLabel(label) => FormatOpView::PushLabel(label@),
            FormatOp::PopLabel => FormatOpView::PopLabel,
            FormatOp::Write(data) => FormatOpView::Write(data@),
            FormatOp::RawEscapeSequence(data) => FormatOpView::RawEscapeSequence(data@),
        }
    }
}

impl Clone for FormatOp {
    fn clone(&self) -> (op: FormatOp)
        ensures
            op@ == self@,
    {
        match self {
            FormatOp::PushLabel(label) => FormatOp::PushLabel(label.clone()),
            FormatOp::PopLabel => FormatOp::PopLabel,
            FormatOp::Write(data) => FormatOp::Write(copy_bytes(data.as_slice())),
            FormatOp::RawEscapeSequence(data) => FormatOp::RawEscapeSequence(
                copy_bytes(data.as_slice()),
            ),
        }
    }
}

/// A fresh vector with the bytes of `data`.
pub fn copy_bytes(data: &[u8]) -> (copy: Vec<u8>)
    ensures
        copy@ == data@,
{
    let mut copy: Vec<u8> = Vec::new();
    let mut i: usize = 0;
    while i < data.len()
        invariant
            0 <= i <= data@.len(),
            copy@ == data@.take(i as int),
        decreases data@.len() - i,
    {
        copy.push(data[i]);
        i = i + 1;
        proof {
            assert(copy@ =~= data@.take(i as int));
        }
    }
    proof {
        assert(data@.take(i as int) =~= data@);
    }
    copy
}

/// The steps of `ops` as mathematical values.
pub open spec fn ops_view(ops: Seq<FormatOp>) -> Seq<FormatOpView> {
    ops.map_values(|op: FormatOp| op@)
}

/// The steps once `data` is written after `ops`: text that follows text
/// makes one piece with it, and no text is no step.
pub open spec fn recorded_write(ops: Seq<FormatOpView>, data: Seq<u8>) -> Seq<FormatOpView> {
    if data.len() == 0 {
        ops
    } else if ops.len() > 0 && ops.last() is Write {
        ops.drop_last().push(FormatOpView::Write(ops.last()->Write_0 + data))
    } else {
        ops.push(FormatOpView::Write(data))
    }
}

/// Records label operations and text in the order in which they arrive.
#[derive(Debug)]
pub struct FormatRecorder {
    ops: Vec<FormatOp>,
}

impl View for FormatRecorder {
    type V = Seq<FormatOpView>;

    closed spec fn view(&self) -> Seq<FormatOpView> {
        ops_view(self.ops@)
    }
}

impl FormatRecorder {
    /// A recorder that holds nothing.
    pub fn new() -> (recorder: FormatRecorder)
        ensures
            recorder@ == Seq::<FormatOpView>::empty(),
    {
        let recorder = FormatRecorder { ops: Vec::new() };
        proof {
            assert(recorder@ =~= Seq::<FormatOpView>::empty());
        }
        recorder
    }

    /// Records one step.
    pub fn push_op(&mut self, op: FormatOp)
        ensures
            final(self)@ == old(self)@.push(op@),
    {
        self.ops.push(op);
        proof {
            assert(self@ =~= old(self)@.push(op@));
        }
    }

    /// Records that `label` was opened.
    pub fn push_label(&mut self, label: &str)
        ensures
            final(self)@ == old(self)@.push(FormatOpView::PushLabel(label@)),
    {
        self.push_op(FormatOp::PushLabel(label.to_owned()));
    }

    /// Records that the label opened last was closed.
    pub fn pop_label(&mut self)
        ensures
            final(self)@ == old(self)@.push(FormatOpView::PopLabel),
    {
        self.push_op(FormatOp::PopLabel);
    }

    /// Records that `data` was written. Text that follows text is
    /// recorded as one piece with it, and no text is no step.
    pub fn write_all(&mut self, data: &[u8])
        ensures
            final(self)@ == recorded_write(old(self)@, data@),
    {
        if data.len() == 0 {
            return ;
        }
        let ghost was = self.ops@;
        match self.ops.pop() {
            Some(FormatOp::Write(text)) => {
                let mut text = text;
                write_all(&mut text, data);
                self.ops.push(FormatOp::Write(text));
                proof {
                    assert(self@ =~= old(self)@.drop_last().push(
                        FormatOpView::Write(was.last()@->Write_0 + data@),
                    ));
                }
            },
            Some(op) => {
                self.ops.push(op);
                self.ops.push(FormatOp::Write(copy_bytes(data)));
                proof {
                    assert(self.ops@ =~= was.push(self.ops@.last()));
                    assert(self@ =~= old(self)@.push(FormatOpView::Write(data@)));
                }
            },
            None => {
                self.ops.push(FormatOp::Write(copy_bytes(data)));
                proof {
                    assert(self@ =~= old(self)@.push(FormatOpView::Write(data@)));
                }
            },
        }
    }

    /// Records that `data` was written as raw bytes.
    pub fn raw(&mut self, data: &[u8])
        ensures
            final(self)@ == old(self)@.push(FormatOpView::RawEscapeSequence(data@)),
    {
        self.push_op(FormatOp::RawEscapeSequence(copy_bytes(data)));
    }

    /// The number of recorded steps.
    pub fn len(&self) -> (n: usize)
        ensures
            n == self@.len(),
    {
        self.ops.len()
    }

    /// The step at `index`.
    pub fn op(&self, index: usize) -> (op: &FormatOp)
        requires
            index < self@.len(),
        ensures
            op@ == self@[index as int],
    {
        &self.ops[index]
    }
}

impl Clone for FormatRecorder {
    fn clone(&self) -> (recorder: FormatRecorder)
        ensures
            recorder@ == self@,
    {
        let mut ops: Vec<FormatOp> = Vec::new();
        let mut i: usize = 0;
        while i < self.ops.len()
            invariant
                0 <= i <= self.ops@.len(),
                ops@.len() == i,
                forall|k: int| 0 <= k < i ==> (#[trigger] ops@[k])@ == self.ops@[k]@,
            decreases self.ops@.len() - i,
        {
            let op = self.ops[i].clone();
            ops.push(op);
            i = i + 1;
        }
        proof {
            assert(ops_view(ops@) =~= ops_view(self.ops@));
        }
        FormatRecorder { ops }
    }
}

/// The state of a writer once one recorded step is done on it.
pub open spec fn applied(s: FormatterView, op: FormatOpView) -> FormatterView {
    match op {
        FormatOpView::PushLabel(label) => pushed(s, label),
        FormatOpView::PopLabel => popped(s),
        FormatOpView::Write(data) => written(s, data),
        FormatOpView::RawEscapeSequence(data) => written_raw(s, data),
    }
}

/// The state of a writer once the recorded steps are done on it, in the
/// order in which they were recorded.
pub open spec fn replayed(s: FormatterView, ops: Seq<FormatOpView>) -> FormatterView
    decreases ops.len(),
{
    if ops.len() == 0 {
        s
    } else {
        applied(replayed(s, ops.drop_last()), ops.last())
    }
}

/// Whether one recorded step can be done on a writer in the state `s`:
/// every style that the step applies can be drawn.
pub open spec fn appliable(s: FormatterView, op: FormatOpView) -> bool {
    match op {
        FormatOpView::PushLabel(_) => true,
        FormatOpView::PopLabel => poppable(s),
        FormatOpView::Write(data) => writable(s, data),
        FormatOpView::RawEscapeSequence(_) => restylable(s),
    }
}

/// How many of the recorded steps can be done, one after the other,
/// before one cannot.
pub open spec fn replayable_steps(s: FormatterView, ops: Seq<FormatOpView>) -> int
    decreases ops.len(),
{
    if ops.len() == 0 {
        0
    } else {
        let before = replayable_steps(s, ops.drop_last());
        if before == ops.len() - 1 && appliable(replayed(s, ops.drop_last()), ops.last()) {
            ops.len() as int
        } else {
            before
        }
    }
}

/// Whether every recorded step can be done.
pub open spec fn replayable(s: FormatterView, ops: Seq<FormatOpView>) -> bool {
    replayable_steps(s, ops) == ops.len()
}

/// The steps that can be done are steps of the recording, and no further
/// steps are done behind one that cannot be done.
pub proof fn lemma_replayable_steps(s: FormatterView, ops: Seq<FormatOpView>, k: int)
    requires
        0 <= k <= ops.len(),
    ensures
        0 <= replayable_steps(s, ops) <= ops.len(),
        replayable_steps(s, ops.take(k)) < k ==> replayable_steps(s, ops) == replayable_steps(
            s,
            ops.take(k),
        ),
    decreases ops.len(),
{
    if ops.len() > 0 {
        if k == ops.len() {
            assert(ops.take(k) =~= ops);
            lemma_replayable_steps(s, ops.drop_last(), 0);
        } else {
            lemma_replayable_steps(s, ops.drop_last(), k);
            assert(ops.drop_last().take(k) =~= ops.take(k));
            lemma_replayable_steps(s, ops.take(k), 0);
        }
    } else {
        assert(ops.take(k) =~= ops);
    }
}

impl FormatRecorder {
    /// Does the recorded steps on `formatter`, in their order, as far as
    /// they can be done, and says whether all of them were done. A step
    /// that would apply a style whose colors cannot be drawn is not done,
    /// nor is any step behind it.
    pub fn replay(&self, formatter: &mut ColorFormatter) -> (done: bool)
        requires
            old(formatter).wf(),
        ensures
            final(formatter).wf(),
            done == replayable(old(formatter)@, self@),
            final(formatter)@ == replayed(
                old(formatter)@,
                self@.take(replayable_steps(old(formatter)@, self@)),
            ),
            done ==> final(formatter)@ == replayed(old(formatter)@, self@),
    {
        let ghost ops = self@;
        let ghost start = formatter@;
        let mut i: usize = 0;
        proof {
            assert(ops.take(0) =~= Seq::<FormatOpView>::empty());
        }
        while i < self.ops.len()
            invariant
                0 <= i <= self.ops@.len(),
                ops == self@,
                ops.len() == self.ops@.len(),
                start == old(formatter)@,
                formatter.wf(),
                formatter@ == replayed(start, ops.take(i as int)),
                replayable_steps(start, ops.take(i as int)) == i,
            decreases self.ops@.len() - i,
        {
            proof {
                assert(ops.take(i + 1).drop_last() =~= ops.take(i as int));
                assert(ops.take(i + 1).last() == self.ops@[i as int]@);
            }
            let can = match &self.ops[i] {
                FormatOp::PushLabel(_) => true,
                FormatOp::PopLabel => formatter.can_pop_label(),
                FormatOp::Write(data) => formatter.can_write(data.as_slice()),
                FormatOp::RawEscapeSequence(_) => formatter.can_restyle(),
            };
            if !can {
                proof {
                    assert(replayable_steps(start, ops.take(i + 1)) == i);
                    lemma_replayable_steps(start, ops, i + 1);
                }
                return false;
            }
            match &self.ops[i] {
                FormatOp::PushLabel(label) => {
                    formatter.push_label(label.as_str());
                },
                FormatOp::PopLabel => {
                    formatter.pop_label();
                },
                FormatOp::Write(data) => {
                    formatter.write(data.as_slice());
                },
                FormatOp::RawEscapeSequence(data) => {
                    formatter.raw();
                    formatter.write_raw(data.as_slice());
                },
            }
            i = i + 1;
        }
        proof {
            assert(ops.take(i as int) =~= ops);
        }
        true
    }
}

} // verus!
