//! Agent-domain types: agent profiles with a state machine, tasks and
//! metrics.

use vstd::prelude::*;
use crate::errors::{FoundationError, FoundationResult, is_validation_failed};
use crate::id::{AgentDomain, DeterministicId, TaskDomain, id_hex_of};
use crate::primitives::{FloatBits, SafeInteger};
use crate::text::{to_owned_string, concat3, str_equal, string_seq_view, dec_nat};
use crate::time::LogicalTimestamp;
use crate::types::PropertyMap;

verus! {

/// The execution state of an agent.
#[derive(Debug, Clone, Copy, PartialEq, Eq, Structural, Hash)]
pub enum AgentState {
    Idle,
    Planning,
    Executing,
    Waiting,
    Completed,
    Failed,
    Suspended,
}

impl AgentState {
    /// The displayed name of the state.
    pub open spec fn label(self) -> Seq<char> {
        match self {
            AgentState::Idle => "IDLE"@,
            AgentState::Planning => "PLANNING"@,
            AgentState::Executing => "EXECUTING"@,
            AgentState::Waiting => "WAITING"@,
            AgentState::Completed => "COMPLETED"@,
            AgentState::Failed => "FAILED"@,
            AgentState::Suspended => "SUSPENDED"@,
        }
    }

    /// The displayed name (`"IDLE"` .. `"SUSPENDED"`).
    pub fn display_string(&self) -> (s: String)
        ensures
            s@ == self.label(),
    {
        match self {
            AgentState::Idle => to_owned_string("IDLE"),
            AgentState::Planning => to_owned_string("PLANNING"),
            AgentState::Executing => to_owned_string("EXECUTING"),
            AgentState::Waiting => to_owned_string("WAITING"),
            AgentState::Completed => to_owned_string("COMPLETED"),
            AgentState::Failed => to_owned_string("FAILED"),
            AgentState::Suspended => to_owned_string("SUSPENDED"),
        }
    }
}

/// The transitions an agent may take: the work cycle
/// Idle -> Planning -> Executing -> {Waiting <-> Executing, Completed, Failed},
/// suspension from any state, and a return to Idle from Suspended, Failed
/// or Completed.
pub open spec fn valid_transition(from: AgentState, to: AgentState) -> bool {
    ||| from == AgentState::Idle && to == AgentState::Planning
    ||| from == AgentState::Planning && to == AgentState::Executing
    ||| from == AgentState::Executing && to == AgentState::Waiting
    ||| from == AgentState::Executing && to == AgentState::Completed
    ||| from == AgentState::Executing && to == AgentState::Failed
    ||| from == AgentState::Waiting && to == AgentState::Executing
    ||| to == AgentState::Suspended
    ||| from == AgentState::Suspended && to == AgentState::Idle
    ||| from == AgentState::Failed && to == AgentState::Idle
    ||| from == AgentState::Completed && to == AgentState::Idle
}

/// Whether a transition is allowed.
pub fn is_valid_transition(from: AgentState, to: AgentState) -> (b: bool)
    ensures
        b == valid_transition(from, to),
{
    match (from, to) {
        (AgentState::Idle, AgentState::Planning) => true,
        (AgentState::Planning, AgentState::Executing) => true,
        (AgentState::Executing, AgentState::Waiting) => true,
        (AgentState::Executing, AgentState::Completed) => true,
        (AgentState::Executing, AgentState::Failed) => true,
        (AgentState::Waiting, AgentState::Executing) => true,
        (_, AgentState::Suspended) => true,
        (AgentState::Suspended, AgentState::Idle) => true,
        (AgentState::Failed, AgentState::Idle) => true,
        (AgentState::Completed, AgentState::Idle) => true,
        _ => false,
    }
}

/// From every state an agent can get back to `Idle` in at most two
/// allowed steps (through `Suspended`), and `Idle` leads only to
/// `Planning` or `Suspended`.
pub proof fn lemma_agent_can_always_return_to_idle(s: AgentState)
    ensures
        valid_transition(s, AgentState::Suspended),
        valid_transition(AgentState::Suspended, AgentState::Idle),
        forall|t: AgentState| valid_transition(AgentState::Idle, t)
            ==> t == AgentState::Planning || t == AgentState::Suspended,
{
}

/// The agent state machine: Idle -> Planning -> Executing; an executing
/// agent may wait, complete or fail; a waiting agent resumes executing;
/// every state may be suspended; Suspended, Failed and Completed lead back
/// to Idle.  No other transition is allowed.
pub proof fn lemma_agent_state_machine(from: AgentState, to: AgentState)
    ensures
        valid_transition(from, to) <==> match from {
            AgentState::Idle => to == AgentState::Planning || to == AgentState::Suspended,
            AgentState::Planning => to == AgentState::Executing || to == AgentState::Suspended,
            AgentState::Executing => to == AgentState::Waiting || to == AgentState::Completed
                || to == AgentState::Failed || to == AgentState::Suspended,
            AgentState::Waiting => to == AgentState::Executing || to == AgentState::Suspended,
            AgentState::Completed => to == AgentState::Idle || to == AgentState::Suspended,
            AgentState::Failed => to == AgentState::Idle || to == AgentState::Suspended,
            AgentState::Suspended => to == AgentState::Idle || to == AgentState::Suspended,
        },
{
}

/// An agent's profile: capabilities, configuration and state.
#[derive(Debug)]
pub struct AgentProfile {
    pub id: DeterministicId<AgentDomain>,
    pub name: String,
    pub role: String,
    pub capabilities: Vec<String>,
    pub properties: PropertyMap,
    pub state: AgentState,
    pub created_at: LogicalTimestamp,
    pub updated_at: LogicalTimestamp,
}

/// The text of the error for a refused transition.
pub open spec fn transition_error(from: AgentState, to: AgentState) -> Seq<char> {
    "invalid state transition: "@ + from.label() + " -> "@ + to.label()
}

impl AgentProfile {
    /// An idle agent created at `ts`, identified by `"<name>:<role>"`.
    pub fn new(name: &str, role: &str, ts: LogicalTimestamp) -> (a: Self)
        ensures
            a.id@ == id_hex_of::<AgentDomain>(vstd::utf8::encode_utf8(name@ + ":"@ + role@)),
            a.name@ == name@,
            a.role@ == role@,
            a.capabilities@ == Seq::<String>::empty(),
            a.properties@ == Map::<Seq<char>, crate::types::PropertyValue>::empty(),
            a.state == AgentState::Idle,
            a.created_at == ts,
            a.updated_at == ts,
    {
        let content = concat3(name, ":", role);
        AgentProfile {
            id: DeterministicId::from_content(content.as_str()),
            name: to_owned_string(name),
            role: to_owned_string(role),
            capabilities: Vec::new(),
            properties: PropertyMap::new(),
            state: AgentState::Idle,
            created_at: ts,
            updated_at: ts,
        }
    }

    /// Adds a capability unless it is already present.
    pub fn add_capability(&mut self, capability: &str)
        ensures
            string_seq_view(old(self).capabilities@).contains(capability@)
                ==> string_seq_view(final(self).capabilities@) == string_seq_view(old(self).capabilities@),
            !string_seq_view(old(self).capabilities@).contains(capability@)
                ==> string_seq_view(final(self).capabilities@) == string_seq_view(old(self).capabilities@).push(capability@),
            final(self).id == old(self).id,
            final(self).name == old(self).name,
            final(self).role == old(self).role,
            final(self).properties == old(self).properties,
            final(self).state == old(self).state,
            final(self).created_at == old(self).created_at,
            final(self).updated_at == old(self).updated_at,
    {
        if !self.has_capability(capability) {
            let ghost before = self.capabilities@;
            self.capabilities.push(to_owned_string(capability));
            assert(string_seq_view(self.capabilities@) =~= string_seq_view(before).push(capability@));
        }
    }

    /// Whether the agent has the capability.
    pub fn has_capability(&self, capability: &str) -> (b: bool)
        ensures
            b == string_seq_view(self.capabilities@).contains(capability@),
    {
        let mut i: usize = 0;
        while i < self.capabilities.len()
            invariant
                i <= self.capabilities@.len(),
                forall|j: int| 0 <= j < i ==> self.capabilities@[j]@ != capability@,
            decreases self.capabilities.len() - i,
        {
            if str_equal(self.capabilities[i].as_str(), capability) {
                assert(string_seq_view(self.capabilities@)[i as int] == capability@);
                return true;
            }
            i = i + 1;
        }
        proof {
            if string_seq_view(self.capabilities@).contains(capability@) {
                let j = choose|j: int| 0 <= j < self.capabilities@.len()
                    && string_seq_view(self.capabilities@)[j] == capability@;
                assert(self.capabilities@[j]@ == capability@);
            }
        }
        false
    }

    /// Moves the agent to `new_state` at `ts` when the transition is
    /// allowed; otherwise leaves it unchanged and returns an error.
    pub fn transition_to(&mut self, new_state: AgentState, ts: LogicalTimestamp) -> (r: FoundationResult<()>)
        ensures
            r is Ok <==> valid_transition(old(self).state, new_state),
            r is Ok ==> final(self).state == new_state && final(self).updated_at == ts,
            r is Err ==> final(self).state == old(self).state && final(self).updated_at == old(self).updated_at
                && is_validation_failed(r, transition_error(old(self).state, new_state)),
            final(self).id == old(self).id,
            final(self).name == old(self).name,
            final(self).role == old(self).role,
            final(self).capabilities == old(self).capabilities,
            final(self).properties == old(self).properties,
            final(self).created_at == old(self).created_at,
    {
        if !is_valid_transition(self.state, new_state) {
            let mut m = to_owned_string("invalid state transition: ");
            let a = self.state.display_string();
            m.append(a.as_str());
            m.append(" -> ");
            let b = new_state.display_string();
            m.append(b.as_str());
            return Err(FoundationError::ValidationFailed(m));
        }
        self.state = new_state;
        self.updated_at = ts;
        Ok(())
    }
}

/// The priority of a task, from lowest to highest.
#[derive(Debug, Clone, Copy, PartialEq, Eq, Structural, PartialOrd, Ord, Hash)]
pub enum TaskPriority {
    Low,
    Medium,
    High,
    Critical,
}

/// The status of a task.
#[derive(Debug, Clone, Copy, PartialEq, Eq, Structural, Hash)]
pub enum TaskStatus {
    Pending,
    InProgress,
    Completed,
    Failed,
    Cancelled,
}

/// A task assigned to an agent.  `progress` is a percentage in [0, 100],
/// held as the bits of an `f64`.
#[derive(Debug)]
pub struct TaskDescriptor {
    pub id: DeterministicId<TaskDomain>,
    pub name: String,
    pub description: String,
    pub priority: TaskPriority,
    pub status: TaskStatus,
    pub assigned_to: Option<DeterministicId<AgentDomain>>,
    pub depends_on: Vec<DeterministicId<TaskDomain>>,
    pub progress: FloatBits,
    pub properties: PropertyMap,
    pub created_at: LogicalTimestamp,
    pub updated_at: LogicalTimestamp,
}

/// The identifier views of a list of identifiers.
pub open spec fn id_views<D: crate::id::DomainTag>(ids: Seq<DeterministicId<D>>) -> Seq<Seq<char>> {
    ids.map_values(|d: DeterministicId<D>| d@)
}

impl TaskDescriptor {
    /// A pending, unassigned task without dependencies and at zero progress,
    /// identified by `"<name>:<ts>"`.
    pub fn new(name: &str, description: &str, priority: TaskPriority, ts: LogicalTimestamp) -> (t: Self)
        ensures
            t.id@ == id_hex_of::<TaskDomain>(vstd::utf8::encode_utf8(name@ + ":"@ + dec_nat(ts@ as nat))),
            t.name@ == name@,
            t.description@ == description@,
            t.priority == priority,
            t.status == TaskStatus::Pending,
            t.assigned_to is None,
            t.depends_on@ == Seq::<DeterministicId<TaskDomain>>::empty(),
            t.progress == FloatBits(0),
            t.created_at == ts,
            t.updated_at == ts,
    {
        let mut content = to_owned_string(name);
        content.append(":");
        crate::text::append_u64_dec(&mut content, ts.value());
        proof {
            reveal_strlit(":");
        }
        TaskDescriptor {
            id: DeterministicId::from_content(content.as_str()),
            name: to_owned_string(name),
            description: to_owned_string(description),
            priority,
            status: TaskStatus::Pending,
            assigned_to: None,
            depends_on: Vec::new(),
            progress: FloatBits(0),
            properties: PropertyMap::new(),
            created_at: ts,
            updated_at: ts,
        }
    }

    /// Assigns the task to an agent at `ts`.
    pub fn assign_to(&mut self, agent_id: DeterministicId<AgentDomain>, ts: LogicalTimestamp)
        ensures
            final(self).assigned_to == Some(agent_id),
            final(self).updated_at == ts,
            final(self).status == old(self).status,
            final(self).progress == old(self).progress,
            final(self).depends_on == old(self).depends_on,
    {
        self.assigned_to = Some(agent_id);
        self.updated_at = ts;
    }

    /// Sets the status at `ts`.
    pub fn update_status(&mut self, status: TaskStatus, ts: LogicalTimestamp)
        ensures
            final(self).status == status,
            final(self).updated_at == ts,
            final(self).assigned_to == old(self).assigned_to,
            final(self).progress == old(self).progress,
            final(self).depends_on == old(self).depends_on,
    {
        self.status = status;
        self.updated_at = ts;
    }

    /// Sets the progress at `ts`.
    pub fn update_progress(&mut self, progress: FloatBits, ts: LogicalTimestamp)
        ensures
            final(self).progress == progress,
            final(self).updated_at == ts,
            final(self).status == old(self).status,
            final(self).assigned_to == old(self).assigned_to,
            final(self).depends_on == old(self).depends_on,
    {
        self.progress = progress;
        self.updated_at = ts;
    }

    /// Whether some dependency is missing from `completed_tasks`.
    pub fn is_blocked(&self, completed_tasks: &[DeterministicId<TaskDomain>]) -> (b: bool)
        ensures
            b == exists|i: int| 0 <= i < self.depends_on@.len()
                && !id_views(completed_tasks@).contains(#[trigger] self.depends_on@[i]@),
    {
        let mut i: usize = 0;
        while i < self.depends_on.len()
            invariant
                i <= self.depends_on@.len(),
                forall|k: int| 0 <= k < i ==> id_views(completed_tasks@).contains(#[trigger] self.depends_on@[k]@),
            decreases self.depends_on.len() - i,
        {
            let dep = &self.depends_on[i];
            let mut found = false;
            let mut j: usize = 0;
            while j < completed_tasks.len()
                invariant
                    j <= completed_tasks@.len(),
                    found ==> id_views(completed_tasks@).contains(dep@),
                    !found ==> forall|k: int| 0 <= k < j ==> completed_tasks@[k]@ != dep@,
                decreases completed_tasks.len() - j,
            {
                if completed_tasks[j] == *dep {
                    assert(id_views(completed_tasks@)[j as int] == dep@);
                    found = true;
                }
                j = j + 1;
            }
            if !found {
                proof {
                    if id_views(completed_tasks@).contains(dep@) {
                        let k = choose|k: int| 0 <= k < completed_tasks@.len() && id_views(completed_tasks@)[k] == dep@;
                        assert(completed_tasks@[k]@ == dep@);
                    }
                }
                assert(!id_views(completed_tasks@).contains(self.depends_on@[i as int]@));
                return true;
            }
            i = i + 1;
        }
        false
    }
}

/// An agent's performance metrics; the average completion time and the
/// success rate (a percentage) are held as the bits of `f64`s.
#[derive(Debug)]
pub struct AgentMetrics {
    pub agent_id: DeterministicId<AgentDomain>,
    pub tasks_completed: SafeInteger,
    pub tasks_failed: SafeInteger,
    pub avg_completion_time: FloatBits,
    pub success_rate: FloatBits,
}

/// The bits of the `f64` value 100.0.
pub open spec fn hundred_percent_bits() -> u64 {
    0x4059_0000_0000_0000
}

impl AgentMetrics {
    /// Fresh metrics: no tasks, zero average time, a 100% success rate.
    pub fn new(agent_id: DeterministicId<AgentDomain>) -> (m: Self)
        ensures
            m.agent_id == agent_id,
            m.tasks_completed@ == 0,
            m.tasks_failed@ == 0,
            m.avg_completion_time == FloatBits(0),
            m.success_rate == FloatBits(hundred_percent_bits()),
    {
        AgentMetrics {
            agent_id,
            tasks_completed: SafeInteger::zero(),
            tasks_failed: SafeInteger::zero(),
            avg_completion_time: FloatBits(0),
            success_rate: FloatBits(0x4059_0000_0000_0000),
        }
    }
}

} // verus!
