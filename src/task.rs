use std::time::Duration;
use vstd::prelude::*;
use vstd::string::StringExecFns;

verus! {

/// Relies on `Duration`'s `Clone`: `Duration` is `Copy`, so a clone is the
/// same value.
pub assume_specification[ <std::time::Duration as std::clone::Clone>::clone ](
    d: &std::time::Duration,
) -> (r: std::time::Duration)
    ensures
        r == *d,
;

/// When a task fires: once after its delay, or after its delay and then at a
/// fixed interval until it is cancelled.
#[derive(Clone, Copy, Debug)]
pub enum RecurrenceType {
    Once,
    Fixed(Duration),
}

/// A registered unit of work: identity, name and timing. The callback itself
/// is kept apart from this value, so a task can be copied and inspected freely.
#[derive(Clone, Debug)]
pub struct Task {
    pub id: i32,
    pub name: String,
    pub delay: Duration,
    pub recurrence: RecurrenceType,
}

/// A scheduler-wide control signal carried by a [`crate::channel::Channel`].
#[derive(Clone, Copy, Debug, PartialEq, Eq, Structural)]
pub enum TaskAction {
    Execute,
    Paused,
    Shutdown,
}

/// `a` and `b` hold the same id, name, delay and recurrence.
pub open spec fn same_task(a: Task, b: Task) -> bool {
    &&& a.id == b.id
    &&& a.name@ == b.name@
    &&& a.delay == b.delay
    &&& a.recurrence == b.recurrence
}

/// The decimal digits of `n`, most significant first.
pub open spec fn digits(n: nat) -> Seq<char>
    decreases n,
{
    if n < 10 {
        seq![(('0' as u8) + n) as char]
    } else {
        digits(n / 10).push((('0' as u8) + (n % 10)) as char)
    }
}

/// `i` written in decimal, with a leading `-` when negative.
pub open spec fn decimal(i: int) -> Seq<char> {
    if i < 0 {
        seq!['-'].add(digits((-i) as nat))
    } else {
        digits(i as nat)
    }
}

/// Relies on `i32`'s `to_string`: the decimal form of `n`.
#[verifier::external_body]
fn decimal_string(n: i32) -> (r: String)
    ensures
        r@ == decimal(n as int),
{
    n.to_string()
}

impl RecurrenceType {
    /// Whether this policy fires once only.
    pub open spec fn spec_is_once(&self) -> bool {
        *self is Once
    }

    #[verifier::when_used_as_spec(spec_is_once)]
    pub fn is_once(&self) -> (r: bool)
        ensures
            r == self.spec_is_once(),
    {
        match self {
            RecurrenceType::Once => true,
            RecurrenceType::Fixed(_) => false,
        }
    }
}

impl TaskAction {
    /// The text shown for this action in diagnostics.
    pub open spec fn spec_label(self) -> Seq<char> {
        match self {
            TaskAction::Execute => "Execute"@,
            TaskAction::Paused => "Paused"@,
            TaskAction::Shutdown => "Shutdown"@,
        }
    }

    /// Renders the action for diagnostics.
    pub fn label(&self) -> (r: String)
        ensures
            r@ == self.spec_label(),
    {
        match self {
            TaskAction::Execute => "Execute".to_string(),
            TaskAction::Paused => "Paused".to_string(),
            TaskAction::Shutdown => "Shutdown".to_string(),
        }
    }
}

impl Task {
    /// Builds a task value from its parts.
    pub fn new(id: i32, name: String, delay: Duration, recurrence: RecurrenceType) -> (r: Task)
        ensures
            r.id == id,
            r.name@ == name@,
            r.delay == delay,
            r.recurrence == recurrence,
    {
        Task { id, name, delay, recurrence }
    }

    /// Renders the task for diagnostics, by its id.
    pub fn describe(&self) -> (r: String)
        ensures
            r@ == "Task ID: "@ + decimal(self.id as int),
    {
        let prefix = "Task ID: ".to_string();
        let number = decimal_string(self.id);
        prefix.concat(number.as_str())
    }

    /// Returns a task with the same id, name, delay and recurrence.
    pub fn duplicate(&self) -> (r: Task)
        ensures
            same_task(r, *self),
    {
        Task {
            id: self.id,
            name: self.name.clone(),
            delay: self.delay,
            recurrence: self.recurrence,
        }
    }
}

} // verus!
