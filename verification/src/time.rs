//! Logical time: timestamps, diffs, updates, and the watermark discipline of
//! an input.

use crate::datum::{DatumView, Row};
use vstd::prelude::*;

verus! {

/// System-wide update type: a signed change in the multiplicity of a row.
pub type Diff = isize;

/// System-wide timestamp type: a value of the logical clock.
pub type Timestamp = u64;

/// A change of the multiplicity of a row at a time.
#[derive(Clone, Debug, PartialEq, Eq)]
pub struct Update {
    pub row: Row,
    pub timestamp: u64,
    pub diff: isize,
}

/// What an input is fed: updates, or the promise of a watermark.
#[derive(Clone, Debug)]
pub enum LocalInput {
    /// Send a batch of updates to the input
    Updates(Vec<Update>),
    /// All future updates will have timestamps >= this timestamp
    Watermark(u64),
}

/// How an input broke the watermark discipline.
#[derive(Clone, Copy, Debug, PartialEq, Eq)]
pub enum InputViolation {
    /// A watermark is earlier than the one before it.
    WatermarkRegressed,
    /// An update is earlier than the watermark that was announced.
    LateUpdate,
}

/// Whether no update of a batch is earlier than a watermark.
pub open spec fn on_time(updates: Seq<Update>, watermark: Timestamp) -> bool {
    forall|i: int| 0 <= i < updates.len() ==> (#[trigger] updates[i]).timestamp >= watermark
}

/// What becomes of a watermark when an input arrives: a watermark that is
/// not earlier takes its place, a batch with no update before it leaves it,
/// and anything else breaks the discipline.
pub open spec fn observed(watermark: Timestamp, input: LocalInput) -> Result<
    Timestamp,
    InputViolation,
> {
    match input {
        LocalInput::Watermark(t) => if t >= watermark {
            Ok(t)
        } else {
            Err(InputViolation::WatermarkRegressed)
        },
        LocalInput::Updates(updates) => if on_time(updates@, watermark) {
            Ok(watermark)
        } else {
            Err(InputViolation::LateUpdate)
        },
    }
}

/// The watermark after a sequence of inputs, each of which kept the
/// discipline, or nothing where one broke it.
pub open spec fn watermark_after(start: Timestamp, inputs: Seq<LocalInput>) -> Option<Timestamp>
    decreases inputs.len(),
{
    if inputs.len() == 0 {
        Some(start)
    } else {
        match watermark_after(start, inputs.drop_last()) {
            Some(watermark) => match observed(watermark, inputs.last()) {
                Ok(next) => Some(next),
                Err(_) => None,
            },
            None => None,
        }
    }
}

/// A sequence of watermark announcements, as inputs.
pub open spec fn announcements(times: Seq<Timestamp>) -> Seq<LocalInput> {
    Seq::new(times.len(), |i: int| LocalInput::Watermark(times[i]))
}

/// Whether no time of a sequence is earlier than one before it.
pub open spec fn non_decreasing(times: Seq<Timestamp>) -> bool {
    forall|i: int, j: int| 0 <= i < j < times.len() ==> times[i] <= times[j]
}

/// Where a sequence of inputs keeps the discipline, so does every prefix of
/// it, and the watermark never goes back along it.
pub proof fn lemma_watermark_never_goes_back(start: Timestamp, inputs: Seq<LocalInput>, n: int)
    requires
        0 <= n <= inputs.len(),
        watermark_after(start, inputs) is Some,
    ensures
        watermark_after(start, inputs.take(n)) is Some,
        start <= watermark_after(start, inputs.take(n))->0 <= watermark_after(start, inputs)->0,
    decreases inputs.len(),
{
    if inputs.len() > 0 {
        if n == inputs.len() {
            assert(inputs.take(n) =~= inputs);
            lemma_watermark_never_goes_back(start, inputs.drop_last(), n - 1);
        } else {
            assert(inputs.drop_last().take(n) =~= inputs.take(n));
            lemma_watermark_never_goes_back(start, inputs.drop_last(), n);
        }
    }
}

/// Watermark announcements are accepted exactly when they never go back:
/// a sequence `t1, t2, ...` of them keeps the discipline if and only if it
/// is non-decreasing.
pub proof fn lemma_watermarks_accepted_iff_non_decreasing(times: Seq<Timestamp>)
    ensures
        watermark_after(0, announcements(times)) is Some <==> non_decreasing(times),
        watermark_after(0, announcements(times)) is Some && times.len() > 0 ==> watermark_after(
            0,
            announcements(times),
        ) == Some(times.last()),
    decreases times.len(),
{
    let inputs = announcements(times);
    if times.len() > 0 {
        let front = times.drop_last();
        assert(inputs.drop_last() =~= announcements(front));
        lemma_watermarks_accepted_iff_non_decreasing(front);
        if non_decreasing(times) {
            assert forall|i: int, j: int| 0 <= i < j < front.len() implies front[i] <= front[j] by {
                assert(front[i] == times[i] && front[j] == times[j]);
            }
            if front.len() > 0 {
                assert(front.last() == times[front.len() - 1]);
            }
        }
        if watermark_after(0, inputs) is Some {
            assert forall|i: int, j: int| 0 <= i < j < times.len() implies times[i] <= times[j] by {
                if j < front.len() {
                    assert(front[i] == times[i] && front[j] == times[j]);
                } else {
                    assert(front[i] == times[i]);
                    assert(front[i] <= front.last());
                }
            }
        }
    }
}

/// After a watermark has been announced, an input that keeps the discipline
/// holds no update before it.
pub proof fn lemma_no_update_before_watermark(
    inputs: Seq<LocalInput>,
    i: int,
    j: int,
    k: int,
)
    requires
        watermark_after(0, inputs) is Some,
        0 <= i < j < inputs.len(),
        inputs[i] is Watermark,
        inputs[j] is Updates,
        0 <= k < inputs[j]->Updates_0@.len(),
    ensures
        inputs[j]->Updates_0@[k].timestamp >= inputs[i]->Watermark_0,
{
    lemma_watermark_never_goes_back(0, inputs, i + 1);
    lemma_watermark_never_goes_back(0, inputs, j);
    lemma_watermark_never_goes_back(0, inputs, j + 1);
    lemma_watermark_never_goes_back(0, inputs.take(j), i + 1);
    assert(inputs.take(j + 1).drop_last() =~= inputs.take(j));
    lemma_watermark_never_goes_back(0, inputs, i);
}

/// What a consumer remembers of one input: its latest watermark.
#[derive(Clone, Copy, Debug, PartialEq, Eq)]
pub struct InputClock {
    pub watermark: Timestamp,
}

impl InputClock {
    /// The clock of an input that has announced nothing yet.
    pub fn new() -> (clock: Self)
        ensures
            clock.watermark == 0,
    {
        InputClock { watermark: 0 }
    }

    /// Takes note of an input. A watermark that is not earlier than the
    /// last becomes the watermark; a batch none of whose updates is earlier
    /// than the watermark is let through. Anything else is refused and
    /// changes nothing.
    pub fn observe(&mut self, input: &LocalInput) -> (res: Result<(), InputViolation>)
        ensures
            match observed(old(self).watermark, *input) {
                Ok(next) => res is Ok && final(self).watermark == next,
                Err(violation) => {
                    &&& res == Err::<(), InputViolation>(violation)
                    &&& final(self).watermark == old(self).watermark
                },
            },
    {
        match input {
            LocalInput::Watermark(t) => {
                if *t >= self.watermark {
                    self.watermark = *t;
                    Ok(())
                } else {
                    Err(InputViolation::WatermarkRegressed)
                }
            },
            LocalInput::Updates(updates) => {
                let mut i: usize = 0;
                while i < updates.len()
                    invariant
                        i <= updates.len(),
                        self.watermark == old(self).watermark,
                        *input is Updates,
                        input->Updates_0 == *updates,
                        forall|j: int|
                            0 <= j < i ==> (#[trigger] updates@[j]).timestamp >= self.watermark,
                    decreases updates.len() - i,
                {
                    if updates[i].timestamp < self.watermark {
                        return Err(InputViolation::LateUpdate);
                    }
                    i = i + 1;
                }
                Ok(())
            },
        }
    }
}

/// Checks a sequence of inputs, from an input that has announced nothing,
/// against the watermark discipline. Gives the watermark that the inputs
/// leave, or the position of the first input that breaks the discipline and
/// how it does.
pub fn check_inputs(inputs: &Vec<LocalInput>) -> (res: Result<Timestamp, (usize, InputViolation)>)
    ensures
        match res {
            Ok(watermark) => watermark_after(0, inputs@) == Some(watermark),
            Err((at, violation)) => {
                &&& at < inputs@.len()
                &&& watermark_after(0, inputs@.take(at as int)) matches Some(before)
                &&& observed(before, inputs@[at as int]) == Err::<Timestamp, InputViolation>(
                    violation,
                )
                &&& watermark_after(0, inputs@) is None
            },
        },
{
    let mut clock = InputClock::new();
    let mut i: usize = 0;
    while i < inputs.len()
        invariant
            i <= inputs.len(),
            watermark_after(0, inputs@.take(i as int)) == Some(clock.watermark),
        decreases inputs.len() - i,
    {
        assert(inputs@.take(i + 1).drop_last() =~= inputs@.take(i as int));
        match clock.observe(&inputs[i]) {
            Ok(()) => {},
            Err(violation) => {
                proof {
                    if watermark_after(0, inputs@) is Some {
                        lemma_watermark_never_goes_back(0, inputs@, i + 1);
                    }
                }
                return Err((i, violation));
            },
        }
        i = i + 1;
    }
    assert(inputs@.take(i as int) =~= inputs@);
    Ok(clock.watermark)
}

/// The multiplicity of a row at a time: the sum of the diffs of all updates
/// of that row at or before the time.
pub open spec fn multiplicity(updates: Seq<Update>, row: Seq<DatumView>, time: Timestamp) -> int
    decreases updates.len(),
{
    if updates.len() == 0 {
        0
    } else if updates.last().row@ == row && updates.last().timestamp <= time {
        multiplicity(updates.drop_last(), row, time) + updates.last().diff
    } else {
        multiplicity(updates.drop_last(), row, time)
    }
}

/// The multiplicity of a row at a time: the sum of the diffs of all updates
/// of that row at or before the time. There is none where the sum is not a
/// `Diff`.
pub fn multiplicity_at(updates: &Vec<Update>, row: &Row, time: Timestamp) -> (r: Option<Diff>)
    ensures
        match r {
            Some(sum) => sum == multiplicity(updates@, row@, time),
            None => !(isize::MIN <= multiplicity(updates@, row@, time) <= isize::MAX),
        },
{
    let mut total: i128 = 0;
    let mut i: usize = 0;
    while i < updates.len()
        invariant
            i <= updates.len(),
            total == multiplicity(updates@.take(i as int), row@, time),
            -(i * 0x8000_0000_0000_0000) <= total <= i * 0x8000_0000_0000_0000,
        decreases updates.len() - i,
    {
        assert(updates@.take(i + 1).drop_last() =~= updates@.take(i as int));
        let update = &updates[i];
        if update.timestamp <= time && update.row == *row {
            total = total + update.diff as i128;
        }
        i = i + 1;
    }
    assert(updates@.take(i as int) =~= updates@);
    if total >= isize::MIN as i128 && total <= isize::MAX as i128 {
        Some(total as isize)
    } else {
        None
    }
}

} // verus!
