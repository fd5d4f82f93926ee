//! What an agent is doing.

use vstd::prelude::*;

verus! {

/// The state of an agent.
#[derive(Clone, Copy, Debug, PartialEq, Eq, PartialOrd, Ord, Structural)]
pub enum AgentStatusKind {
    Idle,
    Running,
    Waiting,
    Done,
}

impl View for AgentStatusKind {
    type V = AgentStatusKind;

    open spec fn view(&self) -> AgentStatusKind {
        *self
    }
}

/// The mark of a state.
pub open spec fn badge_of(kind: AgentStatusKind) -> Seq<char> {
    match kind {
        AgentStatusKind::Idle => seq!['·'],
        AgentStatusKind::Running => seq!['…'],
        AgentStatusKind::Waiting => seq!['●'],
        AgentStatusKind::Done => seq!['✓'],
    }
}

/// The short name of a state; an idle agent has none.
pub open spec fn label_of(kind: AgentStatusKind) -> Seq<char> {
    match kind {
        AgentStatusKind::Idle => Seq::empty(),
        AgentStatusKind::Running => seq!['r', 'u', 'n'],
        AgentStatusKind::Waiting => seq!['w', 'a', 'i', 't'],
        AgentStatusKind::Done => seq!['d', 'o', 'n', 'e'],
    }
}

/// How urgent a state is: waiting before running before done before idle.
pub open spec fn priority_of(kind: AgentStatusKind) -> usize {
    match kind {
        AgentStatusKind::Waiting => 3,
        AgentStatusKind::Running => 2,
        AgentStatusKind::Done => 1,
        AgentStatusKind::Idle => 0,
    }
}

/// Whether a state asks for the user.
pub open spec fn asks_attention(kind: AgentStatusKind) -> bool {
    kind is Waiting || kind is Done
}

impl Default for AgentStatusKind {
    fn default() -> (kind: AgentStatusKind)
        ensures
            kind is Idle,
    {
        AgentStatusKind::Idle
    }
}

impl AgentStatusKind {
    /// The mark of the state.
    pub fn badge(self) -> (badge: &'static str)
        ensures
            badge@ == badge_of(self),
    {
        proof {
            reveal_strlit("·");
            reveal_strlit("…");
            reveal_strlit("●");
            reveal_strlit("✓");
        }
        let badge: &'static str = match self {
            AgentStatusKind::Idle => "·",
            AgentStatusKind::Running => "…",
            AgentStatusKind::Waiting => "●",
            AgentStatusKind::Done => "✓",
        };
        assert(badge@ =~= badge_of(self));
        badge
    }

    /// The short name of the state.
    pub fn label(self) -> (label: &'static str)
        ensures
            label@ == label_of(self),
    {
        proof {
            reveal_strlit("");
            reveal_strlit("run");
            reveal_strlit("wait");
            reveal_strlit("done");
        }
        let label: &'static str = match self {
            AgentStatusKind::Idle => "",
            AgentStatusKind::Running => "run",
            AgentStatusKind::Waiting => "wait",
            AgentStatusKind::Done => "done",
        };
        assert(label@ =~= label_of(self));
        label
    }

    /// Whether the state asks for the user.
    pub fn is_attention(self) -> (asks: bool)
        ensures
            asks == asks_attention(self),
    {
        matches!(self, AgentStatusKind::Waiting | AgentStatusKind::Done)
    }

    /// How urgent the state is.
    pub fn priority(self) -> (priority: usize)
        ensures
            priority == priority_of(self),
    {
        match self {
            AgentStatusKind::Waiting => 3,
            AgentStatusKind::Running => 2,
            AgentStatusKind::Done => 1,
            AgentStatusKind::Idle => 0,
        }
    }
}

/// Two states of the same urgency are the same state.
pub proof fn law_priority_is_injective(a: AgentStatusKind, b: AgentStatusKind)
    requires
        priority_of(a) == priority_of(b),
    ensures
        a == b,
{
}

/// An agent that waits is more urgent than one that runs, that one more than one that
/// is done, and that one more than an idle one.
pub proof fn law_waiting_is_most_urgent(a: AgentStatusKind, b: AgentStatusKind)
    ensures
        a is Waiting && !(b is Waiting) ==> priority_of(a) > priority_of(b),
        a is Running && (b is Done || b is Idle) ==> priority_of(a) > priority_of(b),
        a is Done && b is Idle ==> priority_of(a) > priority_of(b),
{
}

/// An agent asks for the user exactly where it waits or is done.
pub proof fn law_attention(kind: AgentStatusKind)
    ensures
        asks_attention(kind) <==> kind is Waiting || kind is Done,
{
}

/// Each state has a mark of one character and, but for the idle one, a name; no two
/// states share either.
pub proof fn law_states_look_different(a: AgentStatusKind, b: AgentStatusKind)
    ensures
        badge_of(a).len() == 1,
        label_of(a).len() == 0 <==> a is Idle,
        badge_of(a) == badge_of(b) ==> a == b,
        label_of(a) == label_of(b) ==> a == b,
        badge_of(AgentStatusKind::Waiting)[0] == '●',
        label_of(AgentStatusKind::Running) == "run"@,
        label_of(AgentStatusKind::Waiting) == "wait"@,
        label_of(AgentStatusKind::Done) == "done"@,
{
    reveal_strlit("run");
    reveal_strlit("wait");
    reveal_strlit("done");
    assert(seq!['r', 'u', 'n'] =~= "run"@);
    assert(seq!['w', 'a', 'i', 't'] =~= "wait"@);
    assert(seq!['d', 'o', 'n', 'e'] =~= "done"@);
    assert(seq!['w', 'a', 'i', 't'][0] != seq!['d', 'o', 'n', 'e'][0]);
    assert(seq!['·'][0] != seq!['…'][0] && seq!['·'][0] != seq!['●'][0] && seq!['·'][0]
        != seq!['✓'][0]);
    assert(seq!['…'][0] != seq!['●'][0] && seq!['…'][0] != seq!['✓'][0] && seq!['●'][0]
        != seq!['✓'][0]);
}

} // verus!
