//! A model of the server that random requests are checked against.

use std::collections::{HashMap, VecDeque};

use vstd::prelude::*;

use crate::protocol::{
    AddResponse, GarbageCollectResponse, MoveToFrontResponse, RemoveResponse, RingKind,
    SwapResponse,
};

verus! {

/// The most clients that are connected at a time.
pub const MAX_CLIENTS: usize = 32;

/// A request whose response is yet to come.
#[derive(Debug)]
#[allow(inconsistent_fields)]
pub enum PendingOp {
    Add { data: Vec<u8> },
    Move { id: u64 },
    Swap { id1: u64, id2: u64 },
    Remove { id: u64 },
    Gc,
}

/// The response to a request.
#[derive(Copy, Clone, Debug)]
pub enum Reply {
    Add(AddResponse),
    Move(MoveToFrontResponse),
    Swap(SwapResponse),
    Remove(RemoveResponse),
    Gc(GarbageCollectResponse),
}

/// A request together with its response.
#[derive(Debug)]
#[allow(inconsistent_fields)]
pub enum ResponseKind {
    Add { data: Vec<u8>, value: AddResponse },
    Move { move_id: u64, value: MoveToFrontResponse },
    Swap { id1: u64, id2: u64, value: SwapResponse },
    Remove { id: u64, value: RemoveResponse },
    Gc(GarbageCollectResponse),
}

/// Puts a request and its response together, if they are of one kind.
pub fn complete(op: PendingOp, reply: Reply) -> (response: Option<ResponseKind>)
    ensures
        match (op, reply) {
            (PendingOp::Add { data }, Reply::Add(value)) => response == Some(
                ResponseKind::Add { data, value },
            ),
            (PendingOp::Move { id }, Reply::Move(value)) => response == Some(
                ResponseKind::Move { move_id: id, value },
            ),
            (PendingOp::Swap { id1, id2 }, Reply::Swap(value)) => response == Some(
                ResponseKind::Swap { id1, id2, value },
            ),
            (PendingOp::Remove { id }, Reply::Remove(value)) => response == Some(
                ResponseKind::Remove { id, value },
            ),
            (PendingOp::Gc, Reply::Gc(value)) => response == Some(ResponseKind::Gc(value)),
            _ => response is None,
        },
{
    match (op, reply) {
        (PendingOp::Add { data }, Reply::Add(value)) => Some(ResponseKind::Add { data, value }),
        (PendingOp::Move { id }, Reply::Move(value)) => Some(
            ResponseKind::Move { move_id: id, value },
        ),
        (PendingOp::Swap { id1, id2 }, Reply::Swap(value)) => Some(
            ResponseKind::Swap { id1, id2, value },
        ),
        (PendingOp::Remove { id }, Reply::Remove(value)) => Some(
            ResponseKind::Remove { id, value },
        ),
        (PendingOp::Gc, Reply::Gc(value)) => Some(ResponseKind::Gc(value)),
        _ => None,
    }
}

/// A response that no correct server gives.
#[derive(Copy, Clone, Eq, PartialEq, Debug, Structural)]
pub enum Violation {
    /// An entry was moved that is not there.
    MovedMissing(u64),
    /// An entry is there but was not found.
    ExistingNotFound(u64),
    /// Two entries were swapped, neither of which is there.
    SwappedMissing(u64, u64),
    /// An entry was removed that is not there.
    RemovedMissing(u64),
}

/// The contents of the entries that a server should have, by ID.
pub type Contents = Map<u64, Seq<u8>>;

/// The contents with one entry set, or taken out.
pub open spec fn with_entry(contents: Contents, id: u64, data: Option<Seq<u8>>) -> Contents {
    match data {
        Some(data) => contents.insert(id, data),
        None => contents.remove(id),
    }
}

/// The contents of an entry, if it is there.
pub open spec fn entry_of(contents: Contents, id: u64) -> Option<Seq<u8>> {
    if contents.contains_key(id) {
        Some(contents[id])
    } else {
        None
    }
}

/// The contents once a request was carried out, if its response can be right.
pub open spec fn spec_apply(contents: Contents, response: ResponseKind) -> Result<
    Contents,
    Violation,
> {
    match response {
        ResponseKind::Add { data, value: AddResponse::Success { id } } => Ok(
            contents.insert(id, data@),
        ),
        ResponseKind::Move { move_id, value: MoveToFrontResponse::Success { id } } => if
        contents.contains_key(move_id) {
            Ok(contents.remove(move_id).insert(id, contents[move_id]))
        } else {
            Err(Violation::MovedMissing(move_id))
        },
        ResponseKind::Move { move_id, value: MoveToFrontResponse::Error(_) } => if
        contents.contains_key(move_id) {
            Err(Violation::ExistingNotFound(move_id))
        } else {
            Ok(contents)
        },
        ResponseKind::Swap { id1, id2, value } => if value.error1 is None && value.error2 is None {
            if contents.contains_key(id1) || contents.contains_key(id2) {
                Ok(
                    with_entry(
                        with_entry(contents, id1, entry_of(contents, id2)),
                        id2,
                        entry_of(contents, id1),
                    ),
                )
            } else {
                Err(Violation::SwappedMissing(id1, id2))
            }
        } else if value.error1 is Some && contents.contains_key(id1) {
            Err(Violation::ExistingNotFound(id1))
        } else if value.error2 is Some && contents.contains_key(id2) {
            Err(Violation::ExistingNotFound(id2))
        } else {
            Ok(contents)
        },
        ResponseKind::Remove { id, value } => match value.error {
            None => if contents.contains_key(id) {
                Ok(contents.remove(id))
            } else {
                Err(Violation::RemovedMissing(id))
            },
            Some(_) => if contents.contains_key(id) {
                Err(Violation::ExistingNotFound(id))
            } else {
                Ok(contents)
            },
        },
        ResponseKind::Gc(_) => Ok(contents),
    }
}

/// The contents once the requests numbered from `from` up to `to` were carried
/// out, if their responses can be right.
pub open spec fn apply_range(
    contents: Contents,
    received: Map<nat, ResponseKind>,
    from: nat,
    to: nat,
) -> Result<Contents, Violation>
    decreases to,
{
    if to <= from {
        Ok(contents)
    } else {
        match apply_range(contents, received, from, (to - 1) as nat) {
            Ok(before) => spec_apply(before, received[(to - 1) as nat]),
            Err(violation) => Err(violation),
        }
    }
}

/// The first number from `from` on for which no response was received.
pub open spec fn is_next_missing(
    received: Map<nat, ResponseKind>,
    from: nat,
    missing: nat,
) -> bool {
    &&& from <= missing
    &&& !received.contains_key(missing)
    &&& forall|k: nat| from <= k < missing ==> #[trigger] received.contains_key(k)
}

/// The model of a server: its responses may come out of order, and are taken
/// into account in the order in which the server gave them.
pub struct Oracle {
    database: HashMap<u64, Vec<u8>>,
    linearized: VecDeque<Option<ResponseKind>>,
    seq_num_head: u64,
    start: Ghost<(nat, Contents)>,
    received: Ghost<Map<nat, ResponseKind>>,
}

impl Oracle {
    /// The contents that the server should have by now.
    pub closed spec fn contents(self) -> Contents {
        self.database@.map_values(|data: Vec<u8>| data@)
    }

    /// The number of the response that is waited for.
    pub closed spec fn head(self) -> nat {
        self.seq_num_head as nat
    }

    /// The number of the first response, and the contents before it.
    pub closed spec fn spec_start(self) -> (nat, Contents) {
        self.start@
    }

    /// All the responses so far, by number.
    pub closed spec fn received(self) -> Map<nat, ResponseKind> {
        self.received@
    }

    closed spec fn slots(self) -> Seq<Option<ResponseKind>> {
        self.linearized@
    }

    /// The responses that are not taken into account yet are kept.
    closed spec fn slots_match(self) -> bool {
        &&& forall|i: int|
            0 <= i < self.slots().len() ==> match #[trigger] self.slots()[i] {
                Some(response) => self.received().contains_key((self.head() + i) as nat)
                    && self.received()[(self.head() + i) as nat] == response,
                None => !self.received().contains_key((self.head() + i) as nat),
            }
        &&& forall|k: nat|
            k >= self.head() + self.slots().len() ==> !#[trigger] self.received().contains_key(k)
    }

    /// Every response before the one that is waited for was taken into account.
    closed spec fn applied(self) -> bool {
        let (start, contents) = self.spec_start();
        &&& start <= self.head()
        &&& forall|k: nat| start <= k < self.head() ==> #[trigger] self.received().contains_key(k)
        &&& apply_range(contents, self.received(), start, self.head()) == Ok::<
            Contents,
            Violation,
        >(self.contents())
    }

    pub closed spec fn wf(self) -> bool {
        &&& self.slots_match()
        &&& self.slots().len() > 0 ==> self.slots().last() is Some
        &&& self.applied()
        &&& !self.received().contains_key(self.head())
        &&& forall|k: nat| #[trigger] self.received().contains_key(k) ==> k < u64::MAX
    }

    /// A model of an empty server whose first response has the given number.
    pub fn new(seq_num_head: u64) -> (oracle: Oracle)
        ensures
            oracle.wf(),
            oracle.head() == seq_num_head,
            oracle.spec_start() == (seq_num_head as nat, Map::<u64, Seq<u8>>::empty()),
            oracle.contents() == Map::<u64, Seq<u8>>::empty(),
            oracle.received() == Map::<nat, ResponseKind>::empty(),
    {
        broadcast use vstd::std_specs::hash::group_hash_axioms;

        let oracle = Oracle {
            database: HashMap::new(),
            linearized: VecDeque::new(),
            seq_num_head,
            start: Ghost((seq_num_head as nat, Map::empty())),
            received: Ghost(Map::empty()),
        };
        assert(oracle.contents() =~= Map::<u64, Seq<u8>>::empty());
        oracle
    }

    /// Carries out a request on the model.
    fn apply(&mut self, response: ResponseKind) -> (outcome: Result<(), Violation>)
        ensures
            match spec_apply(old(self).contents(), response) {
                Ok(contents) => outcome is Ok && final(self).contents() == contents,
                Err(violation) => outcome == Err::<(), Violation>(violation),
            },
            final(self).slots() == old(self).slots(),
            final(self).head() == old(self).head(),
            final(self).spec_start() == old(self).spec_start(),
            final(self).received() == old(self).received(),
    {
        broadcast use vstd::std_specs::hash::group_hash_axioms;

        let ghost before = self.contents();
        match response {
            ResponseKind::Add { data, value: AddResponse::Success { id } } => {
                let ghost added = data@;
                self.database.insert(id, data);
                assert(self.contents() =~= before.insert(id, added));
            },
            ResponseKind::Move { move_id, value: MoveToFrontResponse::Success { id } } => {
                match self.database.remove(&move_id) {
                    None => return Err(Violation::MovedMissing(move_id)),
                    Some(data) => {
                        self.database.insert(id, data);
                        assert(self.contents() =~= before.remove(move_id).insert(
                            id,
                            before[move_id],
                        ));
                    },
                }
            },
            ResponseKind::Move { move_id, value: MoveToFrontResponse::Error(_) } => {
                if self.database.contains_key(&move_id) {
                    return Err(Violation::ExistingNotFound(move_id));
                }
            },
            ResponseKind::Swap { id1, id2, value } => {
                if value.error1.is_none() && value.error2.is_none() {
                    let data1 = self.database.remove(&id1);
                    let data2 = self.database.remove(&id2);
                    if data1.is_none() && data2.is_none() {
                        return Err(Violation::SwappedMissing(id1, id2));
                    }
                    if let Some(data2) = data2 {
                        self.database.insert(id1, data2);
                    }
                    if let Some(data1) = data1 {
                        self.database.insert(id2, data1);
                    }
                    assert(self.contents() =~= with_entry(
                        with_entry(before, id1, entry_of(before, id2)),
                        id2,
                        entry_of(before, id1),
                    ));
                } else {
                    if value.error1.is_some() && self.database.contains_key(&id1) {
                        return Err(Violation::ExistingNotFound(id1));
                    }
                    if value.error2.is_some() && self.database.contains_key(&id2) {
                        return Err(Violation::ExistingNotFound(id2));
                    }
                }
            },
            ResponseKind::Remove { id, value } => match value.error {
                None => {
                    if self.database.remove(&id).is_none() {
                        return Err(Violation::RemovedMissing(id));
                    }
                    assert(self.contents() =~= before.remove(id));
                },
                Some(_) => {
                    if self.database.contains_key(&id) {
                        return Err(Violation::ExistingNotFound(id));
                    }
                },
            },
            ResponseKind::Gc(_) => {},
        }
        Ok(())
    }

    /// Takes in a response with its number, and takes into account all those
    /// whose predecessors are there.
    pub fn receive(&mut self, sequence_number: u64, response: ResponseKind) -> (outcome: Result<
        (),
        Violation,
    >)
        requires
            old(self).wf(),
            old(self).head() <= sequence_number,
            sequence_number < u64::MAX,
            sequence_number - old(self).head() < usize::MAX,
        ensures
            final(self).received() == old(self).received().insert(
                sequence_number as nat,
                response,
            ),
            final(self).spec_start() == old(self).spec_start(),
            outcome is Ok ==> final(self).wf(),
            ({
                let received = final(self).received();
                let (start, contents) = final(self).spec_start();
                forall|missing: nat| #[trigger]
                    is_next_missing(received, start, missing) ==> match apply_range(
                        contents,
                        received,
                        start,
                        missing,
                    ) {
                        Ok(contents) => {
                            &&& outcome is Ok
                            &&& final(self).head() == missing
                            &&& final(self).contents() == contents
                        },
                        Err(violation) => outcome == Err::<(), Violation>(violation),
                    }
            }),
    {
        let slot: usize = (sequence_number - self.seq_num_head) as usize;
        let ghost before = *self;
        let ghost added = response;
        let ghost received = self.received().insert(sequence_number as nat, added);
        while self.linearized.len() <= slot
            invariant
                slot < usize::MAX,
                before.slots_match(),
                before.slots().len() > 0 ==> before.slots().last() is Some,
                self.slots() == before.slots() || self.slots().len() <= slot + 1,
                self.database == before.database,
                self.seq_num_head == before.seq_num_head,
                self.start == before.start,
                self.received == before.received,
                self.slots_match(),
            decreases slot + 1 - self.linearized@.len(),
        {
            self.linearized.push_back(None);
        }
        let ghost padded = self.linearized@;
        let _ = self.linearized.remove(slot);
        self.linearized.insert(slot, Some(response));
        self.received = Ghost(received);
        proof {
            assert(self.linearized@ =~= padded.update(slot as int, Some(response)));
            assert(self.slots_match());
            lemma_apply_range_frame(
                self.spec_start().1,
                before.received(),
                received,
                self.spec_start().0,
                self.head(),
            );
            assert(self.applied());
        }
        loop
            invariant
                self.slots_match(),
                self.slots().len() > 0 ==> self.slots().last() is Some,
                self.applied(),
                self.received() == received,
                self.spec_start() == before.spec_start(),
                before == *old(self),
                added == response,
                received == before.received().insert(sequence_number as nat, added),
                forall|k: nat| #[trigger] received.contains_key(k) ==> k < u64::MAX,
            ensures
                self.slots_match(),
                self.slots().len() > 0 ==> self.slots().last() is Some,
                self.applied(),
                self.received() == received,
                self.spec_start() == before.spec_start(),
                !self.received().contains_key(self.head()),
            decreases self.linearized@.len(),
        {
            if self.linearized.len() == 0 {
                break;
            }
            let ghost slots = self.linearized@;
            let ghost head = self.head();
            let front = self.linearized.pop_front();
            match front {
                Some(Some(response)) => {
                    assert(slots[0] == Some(response));
                    assert(received.contains_key(head));
                    let ghost popped = *self;
                    assert(forall|i: int|
                        0 <= i < self.linearized@.len() ==> #[trigger] self.linearized@[i]
                            == slots[i + 1]);
                    self.seq_num_head = self.seq_num_head.wrapping_add(1);
                    assert(self.head() == head + 1);
                    assert(self.slots_match()) by {
                        assert forall|i: int| 0 <= i < self.slots().len() implies match #[trigger] self.slots()[i] {
                            Some(response) => self.received().contains_key(
                                (self.head() + i) as nat,
                            ) && self.received()[(self.head() + i) as nat] == response,
                            None => !self.received().contains_key((self.head() + i) as nat),
                        } by {
                            assert(self.slots()[i] == slots[i + 1]);
                        }
                    }
                    let ghost now = *self;
                    match self.apply(response) {
                        Ok(()) => {},
                        Err(violation) => {
                            proof {
                                let (start, contents) = self.spec_start();
                                assert forall|missing: nat| #[trigger]
                                    is_next_missing(received, start, missing) implies apply_range(
                                    contents,
                                    received,
                                    start,
                                    missing,
                                ) == Err::<Contents, Violation>(violation) by {
                                    assert(missing >= head + 1) by {
                                        if missing < head {
                                            assert(received.contains_key(missing));
                                        }
                                    }
                                    lemma_apply_range_fails(
                                        contents,
                                        received,
                                        start,
                                        head + 1,
                                        missing,
                                    );
                                }
                            }
                            return Err(violation);
                        },
                    }
                    assert(self.applied());
                },
                other => {
                    assert(slots[0] is None);
                    self.linearized.push_front(None);
                    assert(self.linearized@ =~= slots);
                    break;
                },
            }
        }
        proof {
            let (start, contents) = self.spec_start();
            assert forall|missing: nat| #[trigger]
                is_next_missing(received, start, missing) implies missing == self.head() by {
                if missing < self.head() {
                    assert(received.contains_key(missing));
                }
            }
        }
        Ok(())
    }

    /// Whether every response so far was taken into account.
    pub fn is_settled(&self) -> (settled: bool)
        requires
            self.wf(),
        ensures
            settled == forall|k: nat|
                k >= self.head() ==> !#[trigger] self.received().contains_key(k),
    {
        let n: usize = self.linearized.len();
        assert(n > 0 ==> self.received().contains_key((self.head() + n - 1) as nat)) by {
            if n > 0 {
                assert(self.slots()[n - 1] is Some);
            }
        }
        n == 0
    }

    /// The number of the response that is waited for.
    pub fn seq_num_head(&self) -> (head: u64)
        ensures
            head == self.head(),
    {
        self.seq_num_head
    }

    /// How many entries the server should have.
    pub fn len(&self) -> (len: usize)
        ensures
            len == self.contents().len(),
    {
        broadcast use vstd::std_specs::hash::group_hash_axioms;

        assert(self.contents().dom() =~= self.database@.dom());
        self.database.len()
    }

    /// The entries that should be there, each of them once and in no particular order.
    pub fn ids(&self) -> (ids: Vec<u64>)
        ensures
            ids@.no_duplicates(),
            forall|id: u64| #[trigger] ids@.contains(id) <==> self.contents().contains_key(id),
    {
        broadcast use vstd::std_specs::hash::group_hash_axioms;

        let mut ids: Vec<u64> = Vec::new();
        let ghost all = vstd::std_specs::iter::IteratorSpec::remaining(
            &vstd::std_specs::hash::spec_keys_iter(&self.database),
        ).unref();
        for id in keys: self.database.keys()
            invariant
                keys.seq().unref() == all,
                ids@ == all.take(keys.index()),
        {
            ids.push(*id);
        }
        assert(ids@ == all);
        assert(ids@.to_set() == self.database@.dom());
        assert forall|id: u64| #[trigger]
            ids@.contains(id) <==> self.contents().contains_key(id) by {
            assert(ids@.to_set().contains(id) <==> ids@.contains(id));
        }
        ids
    }

    /// Whether an entry has the contents that it should have; true if it should
    /// not be there at all.
    pub fn agrees(&self, id: u64, data: &[u8]) -> (agrees: bool)
        ensures
            agrees == (entry_of(self.contents(), id) matches Some(expected) ==> expected == data@),
    {
        broadcast use vstd::std_specs::hash::group_hash_axioms;

        match self.database.get(&id) {
            None => true,
            Some(expected) => crate::text::bytes_equal(expected.as_slice(), data),
        }
    }
}

proof fn lemma_apply_range_frame(
    contents: Contents,
    before: Map<nat, ResponseKind>,
    after: Map<nat, ResponseKind>,
    from: nat,
    to: nat,
)
    requires
        forall|k: nat|
            from <= k < to ==> #[trigger] before.contains_key(k) && after.contains_key(k)
                && before[k] == after[k],
    ensures
        apply_range(contents, before, from, to) == apply_range(contents, after, from, to),
    decreases to,
{
    if to > from {
        lemma_apply_range_frame(contents, before, after, from, (to - 1) as nat);
        assert(before.contains_key((to - 1) as nat));
    }
}

proof fn lemma_apply_range_fails(
    contents: Contents,
    received: Map<nat, ResponseKind>,
    from: nat,
    at: nat,
    to: nat,
)
    requires
        at <= to,
        apply_range(contents, received, from, at) is Err,
    ensures
        apply_range(contents, received, from, to) == apply_range(contents, received, from, at),
    decreases to - at,
{
    if at < to {
        lemma_apply_range_fails(contents, received, from, at, (to - 1) as nat);
    }
}

/// What the model says depends on which responses were received, but not on the
/// order in which they came.
pub proof fn lemma_order_of_arrival_is_irrelevant(a: Oracle, b: Oracle)
    requires
        a.wf(),
        b.wf(),
        a.spec_start() == b.spec_start(),
        a.received() == b.received(),
    ensures
        a.head() == b.head(),
        a.contents() == b.contents(),
{
    if a.head() < b.head() {
        assert(b.received().contains_key(a.head()));
    } else if b.head() < a.head() {
        assert(a.received().contains_key(b.head()));
    }
}

/// What kind of request is sent.
#[derive(Copy, Clone, Eq, PartialEq, Debug, Structural)]
pub enum RequestKind {
    Add,
    Move,
    Swap,
    Remove,
    Gc,
}

/// What happens next.
#[derive(Copy, Clone, Eq, PartialEq, Debug, Structural)]
pub enum FuzzAction {
    /// Connect one more client, without waiting if there are enough. A failure
    /// matters only if it would be the first.
    Connect { nonblocking: bool, required: bool },
    /// Let one client finish and disconnect it.
    Disconnect,
    /// Nobody is connected who could be disconnected.
    Nothing,
    /// Send a request, over a new connection if there is none.
    Send { request: RequestKind, connect_first: bool },
    /// Compare the database with the model.
    Validate,
}

/// What happens next, given which of the eight possibilities was drawn.
pub open spec fn spec_choose_action(drawn: int, clients: int) -> FuzzAction {
    let request = if drawn == 2 {
        RequestKind::Add
    } else if drawn == 3 {
        RequestKind::Move
    } else if drawn == 4 {
        RequestKind::Swap
    } else if drawn == 5 {
        RequestKind::Remove
    } else {
        RequestKind::Gc
    };
    if drawn == 0 {
        FuzzAction::Connect { nonblocking: clients == MAX_CLIENTS, required: clients == 0 }
    } else if drawn == 1 {
        if clients == 0 {
            FuzzAction::Nothing
        } else {
            FuzzAction::Disconnect
        }
    } else if drawn < 7 {
        FuzzAction::Send { request, connect_first: clients == 0 }
    } else {
        FuzzAction::Validate
    }
}

/// What happens next, given which of the eight possibilities was drawn.
pub fn choose_action(drawn: usize, clients: usize) -> (action: FuzzAction)
    requires
        drawn < 8,
        clients <= MAX_CLIENTS,
    ensures
        action == spec_choose_action(drawn as int, clients as int),
{
    let connect_first = clients == 0;
    match drawn {
        0 => FuzzAction::Connect {
            nonblocking: clients == MAX_CLIENTS,
            required: connect_first,
        },
        1 => {
            if connect_first {
                FuzzAction::Nothing
            } else {
                FuzzAction::Disconnect
            }
        },
        2 => FuzzAction::Send { request: RequestKind::Add, connect_first },
        3 => FuzzAction::Send { request: RequestKind::Move, connect_first },
        4 => FuzzAction::Send { request: RequestKind::Swap, connect_first },
        5 => FuzzAction::Send { request: RequestKind::Remove, connect_first },
        6 => FuzzAction::Send { request: RequestKind::Gc, connect_first },
        _ => FuzzAction::Validate,
    }
}

/// The ring that an entry goes to, given a number that was drawn: the favorites
/// on zero.
pub fn drawn_ring(drawn: u32) -> (ring: RingKind)
    ensures
        ring == if drawn == 0 {
            RingKind::Favorites
        } else {
            RingKind::Main
        },
{
    if drawn == 0 {
        RingKind::Favorites
    } else {
        RingKind::Main
    }
}

/// How much garbage is tolerated: none if `drawn` is zero, or else a bit more
/// than `amount`.
pub fn drawn_gc_limit(drawn: u32, amount: u64) -> (limit: u64)
    requires
        amount < 10_000,
    ensures
        limit == if drawn == 0 {
            0
        } else {
            amount + 1
        },
{
    if drawn == 0 {
        0
    } else {
        amount + 1
    }
}

/// A response that comes when it is waited for, with none after it, is taken into account at
/// once: what was added is there, what was moved has its new ID, what was swapped has changed
/// places, what was removed is gone, and every other entry is as it was. A response that
/// contradicts what should be there is reported.
pub proof fn lemma_response_is_taken_into_account(
    oracle: &mut Oracle,
    sequence_number: u64,
    response: ResponseKind,
    outcome: Result<(), Violation>,
    other: u64,
)
    requires
        old(oracle).wf(),
        sequence_number == old(oracle).head(),
        forall|k: nat| k >= old(oracle).head() ==> !#[trigger] old(oracle).received().contains_key(k),
        call_ensures(Oracle::receive, (oracle, sequence_number, response), outcome),
    ensures
        ({
            let before = old(oracle).contents();
            let after = final(oracle).contents();
            let is_there = |id: u64| before.contains_key(id);
            let same = entry_of(after, other) == entry_of(before, other);
            &&& outcome is Ok ==> final(oracle).head() == sequence_number + 1
            &&& match response {
                ResponseKind::Add { data, value: AddResponse::Success { id } } => {
                    &&& outcome is Ok
                    &&& after.contains_key(id) && after[id] == data@
                    &&& other != id ==> same
                },
                ResponseKind::Move { move_id, value: MoveToFrontResponse::Success { id } } => {
                    &&& outcome is Ok <==> is_there(move_id)
                    &&& outcome is Ok ==> {
                        &&& after.contains_key(id) && after[id] == before[move_id]
                        &&& id != move_id ==> !after.contains_key(move_id)
                        &&& other != id && other != move_id ==> same
                    }
                },
                ResponseKind::Move { move_id, value: MoveToFrontResponse::Error(_) } => {
                    &&& outcome is Ok <==> !is_there(move_id)
                    &&& outcome is Ok ==> after == before
                },
                ResponseKind::Swap { id1, id2, value } => {
                    &&& value.error1 is None && value.error2 is None ==> {
                        &&& outcome is Ok <==> is_there(id1) || is_there(id2)
                        &&& outcome is Ok ==> {
                            &&& entry_of(after, id1) == entry_of(before, id2)
                            &&& entry_of(after, id2) == entry_of(before, id1)
                            &&& other != id1 && other != id2 ==> same
                        }
                    }
                    &&& value.error1 is Some || value.error2 is Some ==> {
                        &&& outcome is Ok <==> !(value.error1 is Some && is_there(id1)) && !(
                        value.error2 is Some && is_there(id2))
                        &&& outcome is Ok ==> after == before
                    }
                },
                ResponseKind::Remove { id, value } => {
                    &&& outcome is Ok <==> (value.error is None <==> is_there(id))
                    &&& outcome is Ok ==> !after.contains_key(id) && (other != id ==> same)
                },
                ResponseKind::Gc(_) => outcome is Ok && after == before,
            }
        }),
{
    let received = final(oracle).received();
    let (start, contents) = final(oracle).spec_start();
    let head = old(oracle).head();
    assert(is_next_missing(received, start, head + 1)) by {
        assert forall|k: nat| start <= k < head + 1 implies #[trigger] received.contains_key(k) by {
            if k < head {
                assert(old(oracle).received().contains_key(k));
            }
        }
        assert(!old(oracle).received().contains_key(head + 1));
    }
    lemma_apply_range_frame(contents, old(oracle).received(), received, start, head);
    assert(received[head] == response);
    assert(apply_range(contents, received, start, head) == Ok::<Contents, Violation>(
        old(oracle).contents(),
    ));
}

/// Swapping two entries twice leaves them where they were.
pub proof fn lemma_swap_twice(contents: Contents, id1: u64, id2: u64, value: SwapResponse)
    requires
        value.error1 is None,
        value.error2 is None,
        contents.contains_key(id1) || contents.contains_key(id2),
    ensures
        ({
            let response = ResponseKind::Swap { id1, id2, value };
            let once = spec_apply(contents, response);
            once is Ok && spec_apply(once->Ok_0, response) == Ok::<Contents, Violation>(contents)
        }),
{
    let response = ResponseKind::Swap { id1, id2, value };
    let once = spec_apply(contents, response)->Ok_0;
    assert(spec_apply(once, response)->Ok_0 =~= contents);
}

/// A response that comes before its predecessors changes nothing until they are there.
pub proof fn lemma_early_response_waits(
    oracle: &mut Oracle,
    sequence_number: u64,
    response: ResponseKind,
    outcome: Result<(), Violation>,
)
    requires
        old(oracle).wf(),
        sequence_number > old(oracle).head(),
        call_ensures(Oracle::receive, (oracle, sequence_number, response), outcome),
    ensures
        outcome is Ok,
        final(oracle).head() == old(oracle).head(),
        final(oracle).contents() == old(oracle).contents(),
{
    let received = final(oracle).received();
    let (start, contents) = final(oracle).spec_start();
    let head = old(oracle).head();
    assert(is_next_missing(received, start, head)) by {
        assert forall|k: nat| start <= k < head implies #[trigger] received.contains_key(k) by {
            assert(old(oracle).received().contains_key(k));
        }
    }
    lemma_apply_range_frame(contents, old(oracle).received(), received, start, head);
}

/// A connection is there before it is used: a request is sent over a new one if nobody is
/// connected, and only who is connected is disconnected. Of eight possibilities five send
/// requests, each of another kind.
pub proof fn lemma_actions(drawn: usize, clients: usize, action: FuzzAction)
    requires
        drawn < 8,
        clients <= 32,
        call_ensures(choose_action, (drawn, clients), action),
    ensures
        action is Send <==> 2 <= drawn < 7,
        action matches FuzzAction::Send { request, connect_first } ==> (connect_first <==> clients
            == 0) && (drawn == 2 <==> request is Add) && (drawn == 3 <==> request is Move) && (drawn
            == 4 <==> request is Swap) && (drawn == 5 <==> request is Remove) && (drawn == 6
            <==> request is Gc),
        action is Disconnect ==> clients > 0,
        action is Validate <==> drawn == 7,
        action is Connect <==> drawn == 0,
        action matches FuzzAction::Connect { nonblocking, required } ==> (required <==> clients
            == 0) && (nonblocking <==> clients >= 32),
        drawn == 1 && clients > 0 ==> action is Disconnect,
{
}

/// A request and its response are put together as they are, and only if they are of one kind.
pub proof fn lemma_request_and_response_belong_together(
    op: PendingOp,
    reply: Reply,
    response: Option<ResponseKind>,
)
    requires
        call_ensures(complete, (op, reply), response),
    ensures
        response is Some <==> (op is Add && reply is Add) || (op is Move && reply is Move) || (op
            is Swap && reply is Swap) || (op is Remove && reply is Remove) || (op is Gc && reply
            is Gc),
        response matches Some(ResponseKind::Add { data, value }) ==> op == (PendingOp::Add { data })
            && reply == Reply::Add(value),
        response matches Some(ResponseKind::Move { move_id, value }) ==> op == (PendingOp::Move {
            id: move_id,
        }) && reply == Reply::Move(value),
        response matches Some(ResponseKind::Swap { id1, id2, value }) ==> op == (PendingOp::Swap {
            id1,
            id2,
        }) && reply == Reply::Swap(value),
        response matches Some(ResponseKind::Remove { id, value }) ==> op == (PendingOp::Remove {
            id,
        }) && reply == Reply::Remove(value),
        response matches Some(ResponseKind::Gc(value)) ==> reply == Reply::Gc(value),
{
}

/// Contents agree with the model exactly if they are what was added last under the ID, or if
/// the model has nothing under it.
pub proof fn lemma_model_is_compared(oracle: Oracle, id: u64, data: &[u8], agrees: bool)
    requires
        call_ensures(Oracle::agrees, (&oracle, id, data), agrees),
    ensures
        !oracle.contents().contains_key(id) ==> agrees,
        oracle.contents().contains_key(id) ==> (agrees <==> oracle.contents()[id] == data@),
{
}

} // verus!
