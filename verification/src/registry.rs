//! Which exports are active, and who serves them.

use crate::catalog::ExportName;
use crate::error::{ErrorView, Result, ServerError};
use vstd::prelude::*;

verus! {

/// Identity of an owner.
#[derive(Debug, Clone, Copy, PartialEq, Eq, Structural, Hash)]
pub struct ExportOwnerId(u64);

/// Active serving owner for one export runtime.
#[derive(Debug, Clone, Copy, PartialEq, Eq, Structural, Hash)]
pub struct ExportOwner {
    id: ExportOwnerId,
}

/// Numbers the owners from one on.
#[derive(Debug)]
pub struct ExportOwnerIds {
    next: u64,
}

impl ExportOwnerId {
    pub closed spec fn number(self) -> int {
        self.0 as int
    }

    pub fn raw(self) -> (raw: u64)
        ensures
            raw == self.number(),
    {
        self.0
    }
}

impl ExportOwnerIds {
    /// The number of the next owner.
    pub closed spec fn upcoming(&self) -> int {
        self.next as int
    }

    pub fn new() -> (ids: Self)
        ensures
            ids.upcoming() == 1,
    {
        Self { next: 1 }
    }

    /// Whether another owner can be numbered.
    pub fn has_next(&self) -> (has: bool)
        ensures
            has == (self.upcoming() < u64::MAX),
    {
        self.next < u64::MAX
    }
}

impl ExportOwner {
    pub closed spec fn number(self) -> int {
        self.id.number()
    }

    /// An owner that is no other one's.
    pub fn unique_connection(ids: &mut ExportOwnerIds) -> (owner: Self)
        requires
            old(ids).upcoming() < u64::MAX,
        ensures
            owner.number() == old(ids).upcoming(),
            final(ids).upcoming() == old(ids).upcoming() + 1,
    {
        let id = ExportOwnerId(ids.next);
        ids.next = ids.next + 1;
        Self { id }
    }

    pub fn id(self) -> (id: ExportOwnerId)
        ensures
            id.number() == self.number(),
    {
        self.id
    }

    /// Two owners with one number are one owner.
    pub proof fn same_number(self, other: Self)
        ensures
            self.number() == other.number() ==> self == other,
    {
    }
}

/// State of an active export.
#[derive(Debug, Clone, Copy, PartialEq, Eq, Structural)]
pub enum ActiveExportState {
    Opening { owner: ExportOwner },
    Open { owner: ExportOwner, connections: usize },
    Closing { owner: ExportOwner },
}

impl ActiveExportState {
    /// Who serves the export.
    pub open spec fn served_by(self) -> ExportOwner {
        match self {
            ActiveExportState::Opening { owner } => owner,
            ActiveExportState::Open { owner, .. } => owner,
            ActiveExportState::Closing { owner } => owner,
        }
    }
}

/// An active export.
#[derive(Debug)]
pub struct ActiveExport {
    name: ExportName,
    state: ActiveExportState,
}

/// The active exports.
#[derive(Debug)]
pub struct LocalExportRegistry {
    active: Vec<ActiveExport>,
}

/// What opening an export asks for.
#[derive(Debug, Clone, Copy, PartialEq, Eq, Structural)]
pub enum OpenDecision {
    /// The runtime that runs is shared.
    Share,
    /// A runtime has to be made.
    Create,
}

/// What closing an export asks for.
#[derive(Debug, Clone, Copy, PartialEq, Eq, Structural)]
pub enum CloseDecision {
    /// Nothing: the export is not active, or is still used.
    Keep,
    /// The runtime has to be closed.
    CloseRuntime,
}

/// The places of the names are their own.
spec fn names_apart(active: Seq<ActiveExport>) -> bool {
    forall|i: int, j: int|
        0 <= i < j < active.len() ==> (#[trigger] active[i]).name@ != (#[trigger] active[j]).name@
}

/// The states by name.
spec fn states(active: Seq<ActiveExport>) -> Map<Seq<char>, ActiveExportState>
    decreases active.len(),
{
    if active.len() == 0 {
        Map::empty()
    } else {
        states(active.drop_last()).insert(active.last().name@, active.last().state)
    }
}

proof fn lemma_states(active: Seq<ActiveExport>)
    requires
        names_apart(active),
    ensures
        forall|i: int|
            0 <= i < active.len() ==> states(active).dom().contains(
                (#[trigger] active[i]).name@,
            ) && states(active)[active[i].name@] == active[i].state,
        forall|name: Seq<char>| #[trigger]
            states(active).dom().contains(name) ==> exists|i: int|
                0 <= i < active.len() && (#[trigger] active[i]).name@ == name,
    decreases active.len(),
{
    if active.len() > 0 {
        let rest = active.drop_last();
        let last = active.len() - 1;
        assert(active.last() == active[last]);
        assert forall|i: int, j: int| 0 <= i < j < rest.len() implies (#[trigger] rest[i]).name@
            != (#[trigger] rest[j]).name@ by {
            assert(active[i].name@ != active[j].name@);
        }
        lemma_states(rest);
        assert forall|i: int| 0 <= i < active.len() implies states(active).dom().contains(
            (#[trigger] active[i]).name@,
        ) && states(active)[active[i].name@] == active[i].state by {
            if i < last {
                assert(rest[i] == active[i]);
                assert(active[i].name@ != active[last].name@);
            }
        }
        assert forall|name: Seq<char>| #[trigger] states(active).dom().contains(
            name,
        ) implies exists|i: int|
            0 <= i < active.len() && (#[trigger] active[i]).name@ == name by {
            if name == active[last].name@ {
                assert(active[last].name@ == name);
            } else {
                assert(states(rest).dom().contains(name));
                let i = choose|i: int| 0 <= i < rest.len() && (#[trigger] rest[i]).name@ == name;
                assert(active[i].name@ == name);
            }
        }
    }
}

impl View for LocalExportRegistry {
    type V = Map<Seq<char>, ActiveExportState>;

    closed spec fn view(&self) -> Map<Seq<char>, ActiveExportState> {
        states(self.active@)
    }
}

/// Whether a name is active, and how.
pub open spec fn state_of(active: Map<Seq<char>, ActiveExportState>, name: Seq<char>) -> Option<
    ActiveExportState,
> {
    if active.dom().contains(name) {
        Some(active[name])
    } else {
        None
    }
}

/// What opening an export for an owner does, and what is decided.
pub open spec fn opens(
    before: Map<Seq<char>, ActiveExportState>,
    after: Map<Seq<char>, ActiveExportState>,
    name: Seq<char>,
    owner: ExportOwner,
    result: Result<OpenDecision>,
) -> bool {
    match state_of(before, name) {
        None => {
            &&& result == Ok::<OpenDecision, ServerError>(OpenDecision::Create)
            &&& after == before.insert(
                name,
                ActiveExportState::Opening { owner },
            )
        },
        Some(ActiveExportState::Open { owner: current, connections }) if current
            == owner => {
            &&& result == Ok::<OpenDecision, ServerError>(OpenDecision::Share)
            &&& after == before.insert(
                name,
                ActiveExportState::Open {
                    owner,
                    connections: (connections + 1) as usize,
                },
            )
        },
        Some(_) => {
            &&& result matches Err(error) && error@ == (ErrorView::ExportBusy {
                name: name,
            })
            &&& after == before
        },
    }
}

/// What closing a connection of an owner does, and what is decided.
pub open spec fn closes(
    before: Map<Seq<char>, ActiveExportState>,
    after: Map<Seq<char>, ActiveExportState>,
    name: Seq<char>,
    owner: ExportOwner,
    result: Result<CloseDecision>,
) -> bool {
    match state_of(before, name) {
        None => {
            &&& result == Ok::<CloseDecision, ServerError>(CloseDecision::Keep)
            &&& after == before
        },
        Some(state) => if state.served_by() != owner {
            &&& result matches Err(error) && error@ == (ErrorView::ExportOwnerMismatch {
                name: name,
            })
            &&& after == before
        } else {
            match state {
                ActiveExportState::Open { connections, .. } => if connections > 1 {
                    &&& result == Ok::<CloseDecision, ServerError>(CloseDecision::Keep)
                    &&& after == before.insert(
                        name,
                        ActiveExportState::Open {
                            owner,
                            connections: (connections - 1) as usize,
                        },
                    )
                } else {
                    &&& result == Ok::<CloseDecision, ServerError>(
                        CloseDecision::CloseRuntime,
                    )
                    &&& after == before.insert(
                        name,
                        ActiveExportState::Closing { owner },
                    )
                },
                _ => {
                    &&& result == Ok::<CloseDecision, ServerError>(CloseDecision::Keep)
                    &&& after == before
                },
            }
        },
    }
}

/// The exports without one, if it is in that state.
pub open spec fn freed(
    active: Map<Seq<char>, ActiveExportState>,
    name: Seq<char>,
    state: ActiveExportState,
) -> Map<Seq<char>, ActiveExportState> {
    if state_of(active, name) == Some(state) {
        active.remove(name)
    } else {
        active
    }
}

/// The active exports once one was opened.
pub open spec fn with_opened(
    active: Map<Seq<char>, ActiveExportState>,
    name: Seq<char>,
    owner: ExportOwner,
) -> Map<Seq<char>, ActiveExportState> {
    active.insert(name, ActiveExportState::Open { owner, connections: 1 })
}

impl LocalExportRegistry {
    /// Names are active once, and an open export has a connection.
    pub closed spec fn wf(&self) -> bool {
        &&& names_apart(self.active@)
        &&& forall|i: int|
            0 <= i < self.active@.len() ==> ((#[trigger] self.active@[i]).state matches ActiveExportState::Open {
                connections,
                ..
            } ==> connections > 0)
    }

    /// An export that is open has a connection: the last one that is closed takes it away.
    pub proof fn law_open_export_has_a_connection(&self, name: Seq<char>)
        requires
            self.wf(),
        ensures
            state_of(self@, name) matches Some(ActiveExportState::Open { connections, .. })
                ==> connections > 0,
    {
        lemma_states(self.active@);
        if self@.dom().contains(name) {
            let i = choose|i: int|
                0 <= i < self.active@.len() && (#[trigger] self.active@[i]).name@ == name;
            assert(self.active@[i].state == self@[name]);
        }
    }

    pub fn new() -> (registry: Self)
        ensures
            registry.wf(),
            registry@ == Map::<Seq<char>, ActiveExportState>::empty(),
    {
        Self { active: Vec::new() }
    }

    /// Where a name is in the list.
    fn find(&self, name: &ExportName) -> (found: Option<usize>)
        requires
            self.wf(),
        ensures
            match found {
                Some(index) => {
                    &&& index < self.active@.len()
                    &&& self.active@[index as int].name@ == name@
                    &&& state_of(self@, name@) == Some(self.active@[index as int].state)
                },
                None => {
                    &&& state_of(self@, name@) is None
                    &&& forall|i: int|
                        0 <= i < self.active@.len() ==> (#[trigger] self.active@[i]).name@ != name@
                },
            },
    {
        proof {
            lemma_states(self.active@);
        }
        let mut index: usize = 0;
        while index < self.active.len()
            invariant
                index <= self.active@.len(),
                forall|i: int|
                    0 <= i < self.active@.len() ==> states(self.active@).dom().contains(
                        (#[trigger] self.active@[i]).name@,
                    ) && states(self.active@)[self.active@[i].name@] == self.active@[i].state,
                forall|i: int| 0 <= i < index ==> (#[trigger] self.active@[i]).name@ != name@,
            decreases self.active@.len() - index,
        {
            if self.active[index].name.same(name) {
                return Some(index);
            }
            index = index + 1;
        }
        None
    }

    /// The state of an export, if it is active.
    pub fn state(&self, name: &ExportName) -> (state: Option<ActiveExportState>)
        requires
            self.wf(),
        ensures
            state == state_of(self@, name@),
    {
        match self.find(name) {
            Some(index) => Some(self.active[index].state),
            None => None,
        }
    }

    /// Puts an export into a state.
    fn insert(&mut self, name: &ExportName, state: ActiveExportState)
        requires
            old(self).wf(),
            state matches ActiveExportState::Open { connections, .. } ==> connections > 0,
        ensures
            final(self).wf(),
            final(self)@ == old(self)@.insert(name@, state),
    {
        let ghost before = self.active@;
        match self.find(name) {
            Some(index) => {
                let entry = ActiveExport { name: name.clone(), state };
                self.active.set(index, entry);
                proof {
                    assert forall|i: int, j: int| 0 <= i < j < self.active@.len() implies (
                    #[trigger] self.active@[i]).name@ != (#[trigger] self.active@[j]).name@ by {
                        assert(before[i].name@ != before[j].name@);
                    }
                    lemma_states(before);
                    lemma_states(self.active@);
                    assert(states(self.active@) =~= states(before).insert(name@, state)) by {
                        assert forall|other: Seq<char>| #[trigger] states(
                            self.active@,
                        ).dom().contains(other) <==> states(before).insert(
                            name@,
                            state,
                        ).dom().contains(other) by {
                            if states(self.active@).dom().contains(other) {
                                let i = choose|i: int|
                                    0 <= i < self.active@.len() && (
                                    #[trigger] self.active@[i]).name@ == other;
                                assert(before[i].name@ == other);
                            }
                            if states(before).dom().contains(other) {
                                let i = choose|i: int|
                                    0 <= i < before.len() && (#[trigger] before[i]).name@ == other;
                                assert(self.active@[i].name@ == other);
                            }
                            if other == name@ {
                                assert(self.active@[index as int].name@ == other);
                            }
                        }
                        assert forall|other: Seq<char>| #[trigger] states(
                            self.active@,
                        ).dom().contains(other) implies states(self.active@)[other] == states(
                            before,
                        ).insert(name@, state)[other] by {
                            let i = choose|i: int|
                                0 <= i < self.active@.len() && (#[trigger] self.active@[i]).name@
                                    == other;
                            assert(before[i].name@ == other);
                            if i == index {
                            } else {
                                assert(self.active@[i] == before[i]);
                                if i < index {
                                    assert(before[i].name@ != before[index as int].name@);
                                } else {
                                    assert(before[index as int].name@ != before[i].name@);
                                }
                            }
                        }
                    }
                }
            },
            None => {
                self.active.push(ActiveExport { name: name.clone(), state });
                proof {
                    assert(self.active@.drop_last() =~= before);
                }
            },
        }
    }

    /// Makes an export inactive.
    fn remove(&mut self, name: &ExportName)
        requires
            old(self).wf(),
        ensures
            final(self).wf(),
            final(self)@ == old(self)@.remove(name@),
    {
        let ghost before = self.active@;
        match self.find(name) {
            Some(index) => {
                let _ = self.active.remove(index);
                proof {
                    let after = self.active@;
                    let gone = index as int;
                    assert forall|i: int| 0 <= i < after.len() implies #[trigger] after[i]
                        == before[if i < gone {
                        i
                    } else {
                        i + 1
                    }] by {}
                    assert forall|i: int, j: int| 0 <= i < j < after.len() implies (
                    #[trigger] after[i]).name@ != (#[trigger] after[j]).name@ by {
                        let from = if i < gone {
                            i
                        } else {
                            i + 1
                        };
                        let to = if j < gone {
                            j
                        } else {
                            j + 1
                        };
                        assert(before[from].name@ != before[to].name@);
                    }
                    lemma_states(before);
                    lemma_states(after);
                    assert(states(after) =~= states(before).remove(name@)) by {
                        assert forall|other: Seq<char>| #[trigger] states(after).dom().contains(
                            other,
                        ) <==> states(before).remove(name@).dom().contains(other) by {
                            if states(after).dom().contains(other) {
                                let i = choose|i: int|
                                    0 <= i < after.len() && (#[trigger] after[i]).name@ == other;
                                let from = if i < gone {
                                    i
                                } else {
                                    i + 1
                                };
                                assert(before[from].name@ == other);
                                if from < gone {
                                    assert(before[from].name@ != before[gone].name@);
                                } else {
                                    assert(before[gone].name@ != before[from].name@);
                                }
                            }
                            if states(before).dom().contains(other) && other != name@ {
                                let i = choose|i: int|
                                    0 <= i < before.len() && (#[trigger] before[i]).name@ == other;
                                let to = if i < gone {
                                    i
                                } else {
                                    i - 1
                                };
                                assert(after[to].name@ == other);
                            }
                        }
                        assert forall|other: Seq<char>| #[trigger] states(after).dom().contains(
                            other,
                        ) implies states(after)[other] == states(before).remove(name@)[other] by {
                            let i = choose|i: int|
                                0 <= i < after.len() && (#[trigger] after[i]).name@ == other;
                            let from = if i < gone {
                                i
                            } else {
                                i + 1
                            };
                            assert(before[from].name@ == other);
                        }
                    }
                }
            },
            None => {
                proof {
                    assert(states(before).remove(name@) =~= states(before));
                }
            },
        }
    }

    /// Opens an export for an owner. Of an open export the owner gets the runtime that runs; an
    /// export that another owner has, or that is just opened or closed, is busy.
    pub fn begin_open(&mut self, name: &ExportName, owner: ExportOwner) -> (result: Result<
        OpenDecision,
    >)
        requires
            old(self).wf(),
            state_of(old(self)@, name@) matches Some(ActiveExportState::Open { connections, .. })
                ==> connections < usize::MAX,
        ensures
            final(self).wf(),
            opens(old(self)@, final(self)@, name@, owner, result),
    {
        match self.state(name) {
            None => {
                self.insert(name, ActiveExportState::Opening { owner });
                Ok(OpenDecision::Create)
            },
            Some(ActiveExportState::Open { owner: current, connections }) => {
                if current == owner {
                    self.insert(
                        name,
                        ActiveExportState::Open { owner, connections: connections + 1 },
                    );
                    return Ok(OpenDecision::Share);
                }
                Err(ServerError::ExportBusy { name: name.clone() })
            },
            Some(_) => Err(ServerError::ExportBusy { name: name.clone() }),
        }
    }

    /// The runtime of an export was made.
    pub fn opened(&mut self, name: &ExportName, owner: ExportOwner)
        requires
            old(self).wf(),
        ensures
            final(self).wf(),
            final(self)@ == with_opened(old(self)@, name@, owner),
    {
        self.insert(name, ActiveExportState::Open { owner, connections: 1 });
    }

    /// The runtime of an export could not be made.
    pub fn open_failed(&mut self, name: &ExportName, owner: ExportOwner)
        requires
            old(self).wf(),
        ensures
            final(self).wf(),
            final(self)@ == freed(old(self)@, name@, ActiveExportState::Opening { owner }),
    {
        match self.state(name) {
            Some(ActiveExportState::Opening { owner: current }) => {
                if current == owner {
                    self.remove(name);
                }
            },
            _ => {},
        }
    }

    /// Closes one connection of an owner to an export. The last one closes the runtime.
    pub fn begin_close(&mut self, name: &ExportName, owner: ExportOwner) -> (result: Result<
        CloseDecision,
    >)
        requires
            old(self).wf(),
        ensures
            final(self).wf(),
            closes(old(self)@, final(self)@, name@, owner, result),
    {
        match self.state(name) {
            None => Ok(CloseDecision::Keep),
            Some(ActiveExportState::Open { owner: current, connections }) => {
                if current != owner {
                    return Err(ServerError::ExportOwnerMismatch { name: name.clone() });
                }
                if connections > 1 {
                    self.insert(
                        name,
                        ActiveExportState::Open { owner, connections: connections - 1 },
                    );
                    return Ok(CloseDecision::Keep);
                }
                self.insert(name, ActiveExportState::Closing { owner });
                Ok(CloseDecision::CloseRuntime)
            },
            Some(ActiveExportState::Opening { owner: current }) => {
                if current != owner {
                    return Err(ServerError::ExportOwnerMismatch { name: name.clone() });
                }
                Ok(CloseDecision::Keep)
            },
            Some(ActiveExportState::Closing { owner: current }) => {
                if current != owner {
                    return Err(ServerError::ExportOwnerMismatch { name: name.clone() });
                }
                Ok(CloseDecision::Keep)
            },
        }
    }

    /// The runtime of an export was closed, whether it went well or not.
    pub fn closed(&mut self, name: &ExportName, owner: ExportOwner)
        requires
            old(self).wf(),
        ensures
            final(self).wf(),
            final(self)@ == freed(old(self)@, name@, ActiveExportState::Closing { owner }),
    {
        match self.state(name) {
            Some(ActiveExportState::Closing { owner: current }) => {
                if current == owner {
                    self.remove(name);
                }
            },
            _ => {},
        }
    }
}

/// An export that an owner closed for the last time is gone once its runtime is closed, and can be
/// opened by anyone.
pub proof fn law_final_close_frees_the_export(
    opened: Map<Seq<char>, ActiveExportState>,
    name: Seq<char>,
    owner: ExportOwner,
)
    requires
        state_of(opened, name) == Some(ActiveExportState::Open { owner, connections: 1 }),
    ensures
        ({
            let closing = opened.insert(name, ActiveExportState::Closing { owner });
            &&& state_of(closing, name) == Some(ActiveExportState::Closing { owner })
            &&& state_of(closing.remove(name), name) is None
            &&& forall|other: Seq<char>|
                other != name ==> #[trigger] state_of(closing.remove(name), other) == state_of(
                    opened,
                    other,
                )
        }),
{
}

/// An export that is not active is opened for whoever asks first, and then that owner has it. Of an
/// export that is open only its owner gets a share, which is one connection more; for anyone else,
/// and while it is opened or closed, it is busy and nothing changes.
pub proof fn law_an_export_has_one_owner(
    before: Map<Seq<char>, ActiveExportState>,
    after: Map<Seq<char>, ActiveExportState>,
    name: Seq<char>,
    owner: ExportOwner,
    result: Result<OpenDecision>,
)
    requires
        opens(before, after, name, owner, result),
        state_of(before, name) matches Some(ActiveExportState::Open { connections, .. })
            ==> connections < usize::MAX,
    ensures
        result matches Err(error) ==> error@ == (ErrorView::ExportBusy { name }) && after == before,
        result is Err <==> match state_of(before, name) {
            None => false,
            Some(ActiveExportState::Open { owner: current, .. }) => current != owner,
            Some(_) => true,
        },
        result matches Ok(OpenDecision::Create) ==> state_of(before, name) is None && state_of(
            after,
            name,
        ) == Some(ActiveExportState::Opening { owner }),
        result matches Ok(OpenDecision::Share) ==> {
            &&& state_of(before, name) is Some
            &&& state_of(after, name) matches Some(ActiveExportState::Open { connections, .. })
                && connections == state_of(before, name)->0->connections + 1
        },
        result is Ok ==> state_of(after, name) is Some && state_of(after, name)->0.served_by()
            == owner,
        forall|other: Seq<char>|
            other != name ==> #[trigger] state_of(after, other) == state_of(before, other),
{
}

/// Only its owner closes an export, and the runtime is closed exactly with the last connection;
/// until then the owner keeps it. Anyone else is told that it is not theirs, and nothing changes.
pub proof fn law_the_last_connection_closes_the_export(
    before: Map<Seq<char>, ActiveExportState>,
    after: Map<Seq<char>, ActiveExportState>,
    name: Seq<char>,
    owner: ExportOwner,
    result: Result<CloseDecision>,
)
    requires
        closes(before, after, name, owner, result),
        state_of(before, name) matches Some(ActiveExportState::Open { connections, .. })
            ==> connections > 0,
    ensures
        result is Err <==> (state_of(before, name) matches Some(state) && state.served_by()
            != owner),
        result matches Err(error) ==> error@ == (ErrorView::ExportOwnerMismatch { name }) && after
            == before,
        result matches Ok(CloseDecision::CloseRuntime) <==> state_of(before, name) == Some(
            ActiveExportState::Open { owner, connections: 1 },
        ),
        result matches Ok(CloseDecision::CloseRuntime) ==> state_of(after, name) == Some(
            ActiveExportState::Closing { owner },
        ),
        match state_of(before, name) {
            Some(ActiveExportState::Open { owner: current, connections }) => current == owner
                && connections > 1 ==> state_of(after, name) == Some(
                ActiveExportState::Open { owner, connections: (connections - 1) as usize },
            ),
            _ => after == before,
        },
        forall|other: Seq<char>|
            other != name ==> #[trigger] state_of(after, other) == state_of(before, other),
{
}

/// A share that was taken and closed again leaves the exports as they were.
pub proof fn law_closing_a_share_undoes_it(
    before: Map<Seq<char>, ActiveExportState>,
    shared: Map<Seq<char>, ActiveExportState>,
    after: Map<Seq<char>, ActiveExportState>,
    name: Seq<char>,
    owner: ExportOwner,
    share: Result<OpenDecision>,
    close: Result<CloseDecision>,
)
    requires
        opens(before, shared, name, owner, share),
        closes(shared, after, name, owner, close),
        state_of(before, name) matches Some(ActiveExportState::Open { owner: current, connections })
            && current == owner && 0 < connections < usize::MAX,
    ensures
        share matches Ok(OpenDecision::Share),
        close matches Ok(CloseDecision::Keep),
        after == before,
{
    assert(after =~= before);
}

/// An export that could not be opened, or whose runtime was closed, is gone, and may be opened by
/// anyone; every other export stays as it is.
pub proof fn law_a_freed_export_may_be_opened_by_anyone(
    before: Map<Seq<char>, ActiveExportState>,
    name: Seq<char>,
    state: ActiveExportState,
    next: Map<Seq<char>, ActiveExportState>,
    owner: ExportOwner,
    result: Result<OpenDecision>,
)
    requires
        state_of(before, name) == Some(state),
        opens(freed(before, name, state), next, name, owner, result),
    ensures
        state_of(freed(before, name, state), name) is None,
        forall|other: Seq<char>|
            other != name ==> #[trigger] state_of(freed(before, name, state), other) == state_of(
                before,
                other,
            ),
        result matches Ok(OpenDecision::Create),
        state_of(next, name) == Some(ActiveExportState::Opening { owner }),
{
}

/// An export that is in another state, or of another owner, is not freed.
pub proof fn law_only_the_awaited_export_is_freed(
    active: Map<Seq<char>, ActiveExportState>,
    name: Seq<char>,
    state: ActiveExportState,
)
    requires
        state_of(active, name) != Some(state),
    ensures
        freed(active, name, state) == active,
{
}

/// An export that was opened is the owner's, with the one connection that asked for it, and no other
/// export changes. The owner's next connection shares it; without one, the first close is the last.
pub proof fn law_an_opened_export_has_its_first_connection(
    active: Map<Seq<char>, ActiveExportState>,
    name: Seq<char>,
    owner: ExportOwner,
    other: Seq<char>,
    shared: Map<Seq<char>, ActiveExportState>,
    share: Result<OpenDecision>,
    ended: Map<Seq<char>, ActiveExportState>,
    end: Result<CloseDecision>,
)
    requires
        other != name,
        opens(with_opened(active, name, owner), shared, name, owner, share),
        closes(with_opened(active, name, owner), ended, name, owner, end),
    ensures
        state_of(with_opened(active, name, owner), name) == Some(
            ActiveExportState::Open { owner, connections: 1 },
        ),
        state_of(with_opened(active, name, owner), other) == state_of(active, other),
        share is Ok && share->Ok_0 is Share,
        end is Ok && end->Ok_0 is CloseRuntime,
{
}

} // verus!
