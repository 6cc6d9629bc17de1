//! Membership discovery: successive snapshots of the fleet are turned into an
//! ordered script of removals and insertions.

use crate::shared::Poll;
use vstd::prelude::*;

verus! {

/// A remote node: its identity key and what is needed to connect to it.
/// Discovery goes by the key alone: two entries with equal keys stand for the
/// same node, whatever else they hold.
#[derive(Debug, PartialEq, Eq)]
pub struct Liteserver {
    pub id: String,
    pub host: String,
    pub port: u16,
}

impl Liteserver {
    /// The identity key of this node.
    pub fn id(&self) -> (key: String)
        ensures
            key == self.id,
    {
        self.id.clone()
    }

    /// A copy of this node.
    pub fn duplicate(&self) -> (copy: Liteserver)
        ensures
            copy == *self,
    {
        Liteserver { id: self.id.clone(), host: self.host.clone(), port: self.port }
    }
}

/// A membership change, consumed once by a router.
#[derive(Debug, PartialEq, Eq)]
pub enum Change<K, V> {
    Insert(K, V),
    Remove(K),
}

/// The keys of a list of known identities, as text.
pub open spec fn key_texts(keys: Seq<String>) -> Seq<Seq<char>> {
    keys.map_values(|k: String| k@)
}

/// The keys of a list of nodes, as text.
pub open spec fn node_keys(nodes: Seq<Liteserver>) -> Seq<Seq<char>> {
    nodes.map_values(|n: Liteserver| n.id@)
}

/// The known keys that the snapshot no longer lists, in their order.
pub open spec fn removed(known: Seq<String>, snapshot: Seq<Liteserver>) -> Seq<String> {
    known.filter(|k: String| !node_keys(snapshot).contains(k@))
}

/// The known keys that the snapshot still lists, in their order.
pub open spec fn kept(known: Seq<String>, snapshot: Seq<Liteserver>) -> Seq<String> {
    known.filter(|k: String| node_keys(snapshot).contains(k@))
}

/// The first occurrence of every key of `nodes`, in order.
pub open spec fn unique(nodes: Seq<Liteserver>) -> Seq<Liteserver>
    decreases nodes.len(),
{
    if nodes.len() == 0 {
        nodes
    } else {
        let head = unique(nodes.drop_last());
        if node_keys(head).contains(nodes.last().id@) {
            head
        } else {
            head.push(nodes.last())
        }
    }
}

/// The nodes of the snapshot that are not known, each once, in snapshot order.
pub open spec fn inserted(known: Seq<String>, snapshot: Seq<Liteserver>) -> Seq<Liteserver> {
    unique(snapshot).filter(|n: Liteserver| !key_texts(known).contains(n.id@))
}

/// Whether `keys` holds `key`.
pub fn has_key(keys: &Vec<String>, key: &String) -> (found: bool)
    ensures
        found == key_texts(keys@).contains(key@),
{
    let mut i: usize = 0;
    while i < keys.len()
        invariant
            i <= keys.len(),
            forall|j: int| 0 <= j < i ==> keys@[j]@ != key@,
        decreases keys.len() - i,
    {
        if keys[i] == *key {
            assert(key_texts(keys@)[i as int] == key@);
            return true;
        }
        i = i + 1;
    }
    false
}

/// Whether `nodes` lists a node with identity `key`.
pub fn lists(nodes: &Vec<Liteserver>, key: &String) -> (found: bool)
    ensures
        found == node_keys(nodes@).contains(key@),
{
    let mut i: usize = 0;
    while i < nodes.len()
        invariant
            i <= nodes.len(),
            forall|j: int| 0 <= j < i ==> nodes@[j].id@ != key@,
        decreases nodes.len() - i,
    {
        if nodes[i].id == *key {
            assert(node_keys(nodes@)[i as int] == key@);
            return true;
        }
        i = i + 1;
    }
    false
}

/// What one snapshot changes in the known set.
#[derive(Debug, PartialEq, Eq)]
pub struct Plan {
    /// Known keys that the snapshot no longer lists.
    pub removals: Vec<String>,
    /// Known keys that the snapshot still lists.
    pub kept: Vec<String>,
    /// Nodes of the snapshot that are not known.
    pub insertions: Vec<Liteserver>,
}

/// Whether no key occurs twice.
pub open spec fn distinct(keys: Seq<String>) -> bool {
    key_texts(keys).no_duplicates()
}

/// A node is listed in `unique(nodes)` exactly when its key is listed in
/// `nodes`, and no key is listed twice.
pub proof fn lemma_unique(nodes: Seq<Liteserver>)
    ensures
        node_keys(unique(nodes)).no_duplicates(),
        unique(nodes).len() <= nodes.len(),
        forall|key: Seq<char>|
            node_keys(unique(nodes)).contains(key) <==> node_keys(nodes).contains(key),
        forall|i: int|
            0 <= i < unique(nodes).len() ==> nodes.contains(#[trigger] unique(nodes)[i]),
    decreases nodes.len(),
{
    if nodes.len() > 0 {
        let init = nodes.drop_last();
        let last = nodes.last();
        lemma_unique(init);
        let head = unique(init);
        let all = unique(nodes);
        assert forall|key: Seq<char>|
            node_keys(all).contains(key) <==> node_keys(nodes).contains(key) by {
            if node_keys(all).contains(key) {
                let i = choose|i: int| 0 <= i < all.len() && node_keys(all)[i] == key;
                if i < head.len() {
                    assert(node_keys(head)[i] == key);
                    assert(node_keys(init).contains(key));
                    let j = choose|j: int| 0 <= j < init.len() && node_keys(init)[j] == key;
                    assert(node_keys(nodes)[j] == key);
                } else {
                    assert(node_keys(nodes)[nodes.len() - 1] == key);
                }
            }
            if node_keys(nodes).contains(key) {
                let j = choose|j: int| 0 <= j < nodes.len() && node_keys(nodes)[j] == key;
                if j < init.len() {
                    assert(node_keys(init)[j] == key);
                    assert(node_keys(init).contains(key));
                    assert(node_keys(head).contains(key));
                    let i = choose|i: int| 0 <= i < head.len() && node_keys(head)[i] == key;
                    assert(node_keys(all)[i] == key);
                } else if node_keys(head).contains(key) {
                    let i = choose|i: int| 0 <= i < head.len() && node_keys(head)[i] == key;
                    assert(node_keys(all)[i] == key);
                } else {
                    assert(node_keys(all)[all.len() - 1] == key);
                }
            }
        }
        assert forall|i: int| 0 <= i < all.len() implies nodes.contains(#[trigger] all[i]) by {
            if i < head.len() {
                assert(init.contains(head[i]));
                let j = choose|j: int| 0 <= j < init.len() && init[j] == head[i];
                assert(nodes[j] == all[i]);
            } else {
                assert(nodes[nodes.len() - 1] == all[i]);
            }
        }
        assert forall|i: int, j: int| 0 <= i < j < all.len() implies node_keys(all)[i]
            != node_keys(all)[j] by {
            if j < head.len() {
                assert(node_keys(head)[i] != node_keys(head)[j]);
            } else {
                assert(node_keys(head)[i] == node_keys(all)[i]);
            }
        }
    }
}

/// Filtering keeps exactly the items that pass, and keeps their labels apart.
proof fn lemma_filter_labels<A>(
    items: Seq<A>,
    pass: spec_fn(A) -> bool,
    label: spec_fn(A) -> Seq<char>,
)
    ensures
        forall|x: A| #[trigger] items.filter(pass).contains(x) <==> items.contains(x) && pass(x),
        items.map_values(label).no_duplicates() ==> items.filter(pass).map_values(
            label,
        ).no_duplicates(),
    decreases items.len(),
{
    reveal(Seq::filter);
    if items.len() > 0 {
        let init = items.drop_last();
        let last = items.last();
        lemma_filter_labels(init, pass, label);
        assert(init.push(last) =~= items);
        init.lemma_filter_push(last, pass);
        let out = items.filter(pass);
        let head = init.filter(pass);
        assert forall|x: A| #[trigger] out.contains(x) <==> items.contains(x) && pass(x) by {
            if out.contains(x) {
                let i = choose|i: int| 0 <= i < out.len() && out[i] == x;
                if i < head.len() {
                    assert(head[i] == x);
                    assert(head.contains(x));
                    let j = choose|j: int| 0 <= j < init.len() && init[j] == x;
                    assert(items[j] == x);
                } else {
                    assert(items[items.len() - 1] == x);
                }
            }
            if items.contains(x) && pass(x) {
                let j = choose|j: int| 0 <= j < items.len() && items[j] == x;
                if j < init.len() {
                    assert(init[j] == x);
                    assert(init.contains(x));
                    assert(head.contains(x));
                    let i = choose|i: int| 0 <= i < head.len() && head[i] == x;
                    assert(out[i] == x);
                } else {
                    assert(out[out.len() - 1] == x);
                }
            }
        }
        if items.map_values(label).no_duplicates() {
            assert forall|i: int, j: int| 0 <= i < j < init.len() implies init.map_values(
                label,
            )[i] != init.map_values(label)[j] by {
                assert(items.map_values(label)[i] != items.map_values(label)[j]);
            }
            assert forall|i: int, j: int| 0 <= i < j < out.len() implies out.map_values(label)[i]
                != out.map_values(label)[j] by {
                if j < head.len() {
                    assert(head.map_values(label)[i] != head.map_values(label)[j]);
                } else {
                    assert(head[i] == out[i]);
                    assert(head.contains(head[i]));
                    let k = choose|k: int| 0 <= k < init.len() && init[k] == head[i];
                    assert(items.map_values(label)[k] != items.map_values(label)[items.len() - 1]);
                }
            }
        }
    }
}

/// The script of a snapshot is exact: a key is removed exactly when it is
/// known and no longer listed, kept exactly when it is known and still
/// listed, and inserted exactly when it is listed and not known. No list
/// holds a key twice, so no event is emitted twice.
pub proof fn lemma_diff_exact(known: Seq<String>, snapshot: Seq<Liteserver>)
    requires
        distinct(known),
    ensures
        forall|key: Seq<char>|
            key_texts(removed(known, snapshot)).contains(key) <==> key_texts(known).contains(key)
                && !node_keys(snapshot).contains(key),
        forall|key: Seq<char>|
            key_texts(kept(known, snapshot)).contains(key) <==> key_texts(known).contains(key)
                && node_keys(snapshot).contains(key),
        forall|key: Seq<char>|
            node_keys(inserted(known, snapshot)).contains(key) <==> node_keys(snapshot).contains(
                key,
            ) && !key_texts(known).contains(key),
        distinct(removed(known, snapshot)),
        distinct(kept(known, snapshot)),
        node_keys(inserted(known, snapshot)).no_duplicates(),
{
    let gone = |k: String| !node_keys(snapshot).contains(k@);
    let still = |k: String| node_keys(snapshot).contains(k@);
    let fresh = |n: Liteserver| !key_texts(known).contains(n.id@);
    let text = |k: String| k@;
    let ident = |n: Liteserver| n.id@;
    lemma_filter_labels(known, gone, text);
    lemma_filter_labels(known, still, text);
    lemma_unique(snapshot);
    lemma_filter_labels(unique(snapshot), fresh, ident);
    assert forall|key: Seq<char>|
        key_texts(removed(known, snapshot)).contains(key) <==> key_texts(known).contains(key)
            && !node_keys(snapshot).contains(key) by {
        lemma_labelled(known, gone, text, |k: Seq<char>| !node_keys(snapshot).contains(k), key);
    }
    assert forall|key: Seq<char>|
        key_texts(kept(known, snapshot)).contains(key) <==> key_texts(known).contains(key)
            && node_keys(snapshot).contains(key) by {
        lemma_labelled(known, still, text, |k: Seq<char>| node_keys(snapshot).contains(k), key);
    }
    assert forall|key: Seq<char>|
        node_keys(inserted(known, snapshot)).contains(key) <==> node_keys(snapshot).contains(key)
            && !key_texts(known).contains(key) by {
        lemma_labelled(
            unique(snapshot),
            fresh,
            ident,
            |k: Seq<char>| !key_texts(known).contains(k),
            key,
        );
    }
}

/// Where passing depends on the label alone, a label is found among the
/// filtered items exactly when it is found among the items and passes.
proof fn lemma_labelled<A>(
    items: Seq<A>,
    pass: spec_fn(A) -> bool,
    label: spec_fn(A) -> Seq<char>,
    admits: spec_fn(Seq<char>) -> bool,
    key: Seq<char>,
)
    requires
        forall|x: A| #[trigger] pass(x) == admits(label(x)),
    ensures
        items.filter(pass).map_values(label).contains(key) <==> items.map_values(label).contains(
            key,
        ) && admits(key),
{
    lemma_filter_labels(items, pass, label);
    let out = items.filter(pass);
    if out.map_values(label).contains(key) {
        let i = choose|i: int| 0 <= i < out.len() && out.map_values(label)[i] == key;
        assert(out.contains(out[i]));
        let j = choose|j: int| 0 <= j < items.len() && items[j] == out[i];
        assert(pass(items[j]));
        assert(items.map_values(label)[j] == key);
    }
    if items.map_values(label).contains(key) && admits(key) {
        let j = choose|j: int| 0 <= j < items.len() && items.map_values(label)[j] == key;
        assert(pass(items[j]));
        assert(items.contains(items[j]));
        assert(out.contains(items[j]));
        let i = choose|i: int| 0 <= i < out.len() && out[i] == items[j];
        assert(out.map_values(label)[i] == key);
    }
}

/// Compares a snapshot with the known keys: which keys leave, which stay, and
/// which nodes are new.
pub fn diff(known: &Vec<String>, snapshot: &Vec<Liteserver>) -> (plan: Plan)
    ensures
        plan.removals@ == removed(known@, snapshot@),
        plan.kept@ == kept(known@, snapshot@),
        plan.insertions@ == inserted(known@, snapshot@),
{
    let mut removals: Vec<String> = Vec::new();
    let mut stay: Vec<String> = Vec::new();
    let ghost gone = |k: String| !node_keys(snapshot@).contains(k@);
    let ghost still = |k: String| node_keys(snapshot@).contains(k@);
    let mut i: usize = 0;
    proof {
        reveal(Seq::filter);
        assert(known@.take(0).filter(gone) =~= Seq::<String>::empty());
        assert(known@.take(0).filter(still) =~= Seq::<String>::empty());
    }
    while i < known.len()
        invariant
            i <= known.len(),
            gone == |k: String| !node_keys(snapshot@).contains(k@),
            still == |k: String| node_keys(snapshot@).contains(k@),
            removals@ == known@.take(i as int).filter(gone),
            stay@ == known@.take(i as int).filter(still),
        decreases known.len() - i,
    {
        proof {
            assert(known@.take(i + 1) =~= known@.take(i as int).push(known@[i as int]));
            known@.take(i as int).lemma_filter_push(known@[i as int], gone);
            known@.take(i as int).lemma_filter_push(known@[i as int], still);
        }
        if lists(snapshot, &known[i]) {
            stay.push(known[i].clone());
        } else {
            removals.push(known[i].clone());
        }
        i = i + 1;
    }
    assert(known@.take(i as int) =~= known@);

    let mut seen: Vec<String> = Vec::new();
    let mut insertions: Vec<Liteserver> = Vec::new();
    let ghost fresh = |n: Liteserver| !key_texts(known@).contains(n.id@);
    let ghost mut firsts: Seq<Liteserver> = Seq::empty();
    let mut j: usize = 0;
    proof {
        reveal(Seq::filter);
        assert(firsts.filter(fresh) =~= Seq::<Liteserver>::empty());
        assert(key_texts(seen@) =~= node_keys(firsts));
    }
    while j < snapshot.len()
        invariant
            j <= snapshot.len(),
            fresh == |n: Liteserver| !key_texts(known@).contains(n.id@),
            firsts == unique(snapshot@.take(j as int)),
            key_texts(seen@) == node_keys(firsts),
            insertions@ == firsts.filter(fresh),
        decreases snapshot.len() - j,
    {
        proof {
            assert(snapshot@.take(j + 1).drop_last() =~= snapshot@.take(j as int));
            firsts.lemma_filter_push(snapshot@[j as int], fresh);
        }
        if !has_key(&seen, &snapshot[j].id) {
            let ghost before = seen@;
            seen.push(snapshot[j].id.clone());
            if !has_key(known, &snapshot[j].id) {
                insertions.push(snapshot[j].duplicate());
            }
            proof {
                assert(seen@ == before.push(snapshot@[j as int].id));
                assert(node_keys(firsts.push(snapshot@[j as int])) =~= node_keys(firsts).push(
                    snapshot@[j as int].id@,
                ));
                assert(key_texts(seen@) =~= key_texts(before).push(snapshot@[j as int].id@));
                firsts = firsts.push(snapshot@[j as int]);
            }
        }
        j = j + 1;
    }
    assert(snapshot@.take(j as int) =~= snapshot@);
    Plan { removals, kept: stay, insertions }
}

/// Where the stream stands in its cycle.
#[derive(Clone, Copy, Debug, PartialEq, Eq, Structural)]
pub enum Phase {
    /// Ready to decide what comes next.
    Draining,
    /// Waiting for the timer.
    AwaitingTick,
    /// Waiting for the configuration source.
    Fetching,
    /// Waiting for the client factory to answer for the first pending node.
    Building,
    /// Over: nothing more is emitted.
    Stopped,
}

/// What happened outside since the last action.
pub enum Event<S> {
    /// The consumer asks for more.
    Resume,
    /// The timer fired.
    Tick,
    /// The configuration source returned the current nodes.
    Snapshot(Vec<Liteserver>),
    /// The configuration source failed.
    FetchFailed,
    /// The factory built a handle for the node it was asked for.
    Built(S),
    /// The factory failed for the node it was asked for.
    BuildFailed,
    /// The factory itself is out of service.
    FactoryFailed,
}

/// What the owner of the stream does next.
#[derive(Debug, PartialEq, Eq)]
pub enum Action<S> {
    /// Wait for the timer, then report `Tick`.
    AwaitTick,
    /// Fetch the current nodes, then report `Snapshot` or `FetchFailed`.
    Fetch,
    /// Ask the factory for a handle to this node, then report `Built`,
    /// `BuildFailed` or `FactoryFailed`.
    Build(Liteserver),
    /// Hand this change to the consumer, then report `Resume`.
    Emit(Change<String, S>),
    /// The stream is over.
    End,
}

/// The state of a discovery stream, as contracts see it.
pub struct StreamState {
    /// Keys of the nodes that the consumer holds a handle for.
    pub known: Seq<String>,
    /// Keys still to be announced as removed in this tick.
    pub removals: Seq<String>,
    /// Nodes still to be built in this tick.
    pub insertions: Seq<Liteserver>,
    pub phase: Phase,
}

impl StreamState {
    /// No key is known twice, no pending node is known or pending twice, a
    /// build is awaited only for a pending node and once every removal was
    /// announced, and between ticks nothing is pending.
    pub open spec fn wf(self) -> bool {
        &&& distinct(self.known)
        &&& node_keys(self.insertions).no_duplicates()
        &&& forall|i: int|
            0 <= i < self.insertions.len() ==> !key_texts(self.known).contains(
                #[trigger] node_keys(self.insertions)[i],
            )
        &&& self.phase == Phase::Building ==> self.insertions.len() > 0 && self.removals.len()
            == 0
        &&& (self.phase == Phase::AwaitingTick || self.phase == Phase::Fetching) ==> (
        self.removals.len() == 0 && self.insertions.len() == 0)
    }

    /// The state before the first tick: nothing known, nothing pending.
    pub open spec fn initial() -> StreamState {
        StreamState {
            known: Seq::empty(),
            removals: Seq::empty(),
            insertions: Seq::empty(),
            phase: Phase::Draining,
        }
    }
}

/// The next thing to do when nothing is awaited: announce the first pending
/// removal, else build the first pending node, else wait for the timer.
pub open spec fn advance<S>(st: StreamState) -> (StreamState, Action<S>) {
    if st.removals.len() > 0 {
        (
            StreamState { removals: st.removals.skip(1), phase: Phase::Draining, ..st },
            Action::Emit(Change::Remove(st.removals[0])),
        )
    } else if st.insertions.len() > 0 {
        (StreamState { phase: Phase::Building, ..st }, Action::Build(st.insertions[0]))
    } else {
        (StreamState { phase: Phase::AwaitingTick, ..st }, Action::AwaitTick)
    }
}

/// The transition function of the stream. Removals of a tick come before its
/// insertions; a node whose build fails is dropped from this tick and stays
/// unknown; a failed fetch, a failed factory, or an event that the phase does
/// not expect stops the stream with the known keys unchanged.
pub open spec fn next<S>(st: StreamState, event: Event<S>) -> (StreamState, Action<S>) {
    match (st.phase, event) {
        (Phase::Draining, Event::Resume) => advance(st),
        (Phase::AwaitingTick, Event::Tick) => (
            StreamState { phase: Phase::Fetching, ..st },
            Action::Fetch,
        ),
        (Phase::Fetching, Event::Snapshot(nodes)) => advance(
            StreamState {
                known: kept(st.known, nodes@),
                removals: removed(st.known, nodes@),
                insertions: inserted(st.known, nodes@),
                phase: Phase::Draining,
            },
        ),
        (Phase::Building, Event::Built(handle)) => (
            StreamState {
                known: st.known.push(st.insertions[0].id),
                insertions: st.insertions.skip(1),
                phase: Phase::Draining,
                ..st
            },
            Action::Emit(Change::Insert(st.insertions[0].id, handle)),
        ),
        (Phase::Building, Event::BuildFailed) => advance(
            StreamState { insertions: st.insertions.skip(1), ..st },
        ),
        _ => (StreamState { phase: Phase::Stopped, ..st }, Action::End),
    }
}

/// Every transition keeps the state well formed.
pub proof fn lemma_next_wf<S>(st: StreamState, event: Event<S>)
    requires
        st.wf(),
    ensures
        next(st, event).0.wf(),
{
    let after = next(st, event).0;
    match (st.phase, event) {
        (Phase::Fetching, Event::Snapshot(nodes)) => {
            lemma_diff_exact(st.known, nodes@);
            let fresh = inserted(st.known, nodes@);
            assert forall|i: int| 0 <= i < fresh.len() implies !key_texts(
                kept(st.known, nodes@),
            ).contains(#[trigger] node_keys(fresh)[i]) by {
                assert(node_keys(fresh).contains(node_keys(fresh)[i]));
            }
        },
        (Phase::Building, Event::Built(handle)) => {
            lemma_rest_wf(st);
            let id = st.insertions[0].id;
            assert(node_keys(st.insertions)[0] == id@);
            assert(key_texts(st.known.push(id)) =~= key_texts(st.known).push(id@));
            assert forall|i: int| 0 <= i < after.insertions.len() implies !key_texts(
                after.known,
            ).contains(#[trigger] node_keys(after.insertions)[i]) by {
                assert(node_keys(after.insertions)[i] == node_keys(st.insertions)[i + 1]);
            }
        },
        (Phase::Building, Event::BuildFailed) => {
            lemma_rest_wf(st);
        },
        _ => {},
    }
}

/// Dropping the first pending node keeps the pending nodes apart and unknown.
proof fn lemma_rest_wf(st: StreamState)
    requires
        st.wf(),
        st.insertions.len() > 0,
    ensures
        node_keys(st.insertions.skip(1)).no_duplicates(),
        forall|i: int|
            0 <= i < st.insertions.len() - 1 ==> !key_texts(st.known).contains(
                #[trigger] node_keys(st.insertions.skip(1))[i],
            ),
{
    let rest = st.insertions.skip(1);
    assert forall|i: int| 0 <= i < rest.len() implies #[trigger] node_keys(rest)[i] == node_keys(
        st.insertions,
    )[i + 1] by {}
}

/// The removals of a tick, as the consumer receives them.
pub open spec fn removal_changes<S>(keys: Seq<String>) -> Seq<Change<String, S>> {
    keys.map_values(|k: String| Change::<String, S>::Remove(k))
}

/// The insertions of a tick, as the consumer receives them: one for each
/// pending node that the factory built a handle for, in order.
pub open spec fn insertion_changes<S>(nodes: Seq<Liteserver>, outcomes: Seq<Option<S>>) -> Seq<
    Change<String, S>,
>
    decreases nodes.len(),
{
    if nodes.len() == 0 || outcomes.len() == 0 {
        Seq::empty()
    } else {
        let rest = insertion_changes(nodes.skip(1), outcomes.skip(1));
        match outcomes[0] {
            Some(handle) => seq![Change::Insert(nodes[0].id, handle)] + rest,
            None => rest,
        }
    }
}

/// The keys of the pending nodes that the factory built a handle for.
pub open spec fn built_keys<S>(nodes: Seq<Liteserver>, outcomes: Seq<Option<S>>) -> Seq<String>
    decreases nodes.len(),
{
    if nodes.len() == 0 || outcomes.len() == 0 {
        Seq::empty()
    } else {
        let rest = built_keys(nodes.skip(1), outcomes.skip(1));
        match outcomes[0] {
            Some(_) => seq![nodes[0].id] + rest,
            None => rest,
        }
    }
}

/// How much of a tick is still ahead.
pub open spec fn weight<S>(st: StreamState, action: Action<S>) -> nat {
    2 * (st.removals.len() + st.insertions.len()) + if action is Emit {
        1nat
    } else {
        0nat
    }
}

/// An owner that follows the actions until the stream waits or ends: after
/// each emitted change it resumes, and each build is answered with the next
/// of `outcomes`. Gives the state reached and the changes emitted on the way.
pub open spec fn run<S>(st: StreamState, action: Action<S>, outcomes: Seq<Option<S>>) -> (
    StreamState,
    Seq<Change<String, S>>,
)
    decreases outcomes.len(), weight(st, action),
{
    match action {
        Action::Emit(change) => {
            let (st1, action1) = next::<S>(st, Event::Resume);
            let (end, rest) = run(st1, action1, outcomes);
            (end, seq![change] + rest)
        },
        Action::Build(_) => {
            if outcomes.len() == 0 {
                (st, Seq::empty())
            } else {
                let event = match outcomes[0] {
                    Some(handle) => Event::Built(handle),
                    None => Event::BuildFailed,
                };
                let (st1, action1) = next::<S>(st, event);
                run(st1, action1, outcomes.skip(1))
            }
        },
        _ => (st, Seq::empty()),
    }
}

/// From a state with nothing awaited, the owner of `run` receives the
/// pending removals, then an insertion for each pending node that is built;
/// the built nodes become known and the stream waits for the timer.
pub proof fn lemma_run_drains<S>(st: StreamState, outcomes: Seq<Option<S>>)
    requires
        outcomes.len() == st.insertions.len(),
    ensures
        ({
            let (st1, action1) = advance::<S>(st);
            let (end, changes) = run(st1, action1, outcomes);
            &&& changes == removal_changes::<S>(st.removals) + insertion_changes(
                st.insertions,
                outcomes,
            )
            &&& end.known == st.known + built_keys(st.insertions, outcomes)
            &&& end.removals.len() == 0
            &&& end.insertions.len() == 0
            &&& end.phase == Phase::AwaitingTick
        }),
    decreases st.insertions.len(), st.removals.len(),
{
    let (st1, action1) = advance::<S>(st);
    let (end, changes) = run(st1, action1, outcomes);
    if st.removals.len() > 0 {
        lemma_run_drains(st1, outcomes);
        let (st2, action2) = advance::<S>(st1);
        assert(next::<S>(st1, Event::Resume) == (st2, action2));
        assert(removal_changes::<S>(st.removals) =~= seq![Change::Remove(st.removals[0])]
            + removal_changes::<S>(st1.removals));
        let rest = run(st2, action2, outcomes).1;
        assert(changes == seq![Change::Remove(st.removals[0])] + rest);
        assert(changes =~= removal_changes::<S>(st.removals) + insertion_changes(
            st.insertions,
            outcomes,
        ));
    } else if st.insertions.len() > 0 {
        let node = st.insertions[0];
        let rest = StreamState { insertions: st.insertions.skip(1), ..st };
        assert(removal_changes::<S>(st.removals) =~= Seq::empty());
        match outcomes[0] {
            Some(handle) => {
                let st2 = StreamState {
                    known: st.known.push(node.id),
                    phase: Phase::Draining,
                    ..rest
                };
                lemma_run_drains(st2, outcomes.skip(1));
                let (st3, action3) = advance::<S>(st2);
                assert(next::<S>(st1, Event::Built(handle)) == (
                    st2,
                    Action::Emit(Change::Insert(node.id, handle)),
                ));
                assert(next::<S>(st2, Event::Resume) == (st3, action3));
                let emit = Action::Emit(Change::Insert(node.id, handle));
                let tail = run(st3, action3, outcomes.skip(1)).1;
                assert(run(st1, action1, outcomes) == run(st2, emit, outcomes.skip(1)));
                assert(run(st2, emit, outcomes.skip(1)).1 == seq![Change::Insert(node.id, handle)]
                    + tail);
                assert(changes == seq![Change::Insert(node.id, handle)] + tail);
                assert(changes =~= removal_changes::<S>(st.removals) + insertion_changes(
                    st.insertions,
                    outcomes,
                ));
                assert(end.known =~= st.known + built_keys(st.insertions, outcomes));
            },
            None => {
                lemma_run_drains(rest, outcomes.skip(1));
                let (st3, action3) = advance::<S>(rest);
                assert(next::<S>(st1, Event::BuildFailed) == (st3, action3)) by {
                    assert((StreamState { insertions: st1.insertions.skip(1), ..st1 }).removals
                        == rest.removals);
                }
                assert(changes =~= removal_changes::<S>(st.removals) + insertion_changes(
                    st.insertions,
                    outcomes,
                ));
            },
        }
    } else {
        assert(removal_changes::<S>(st.removals) =~= Seq::empty());
        assert(changes =~= removal_changes::<S>(st.removals) + insertion_changes(
            st.insertions,
            outcomes,
        ));
        assert(end.known =~= st.known + built_keys(st.insertions, outcomes));
    }
}

/// One tick, from snapshot to the next wait: the consumer receives a removal
/// for each known key that the snapshot no longer lists, then an insertion
/// for each listed node that was not known and could be built, and nothing
/// else. Afterwards exactly the kept and the built keys are known.
pub proof fn lemma_tick<S>(known: Seq<String>, nodes: Vec<Liteserver>, outcomes: Seq<Option<S>>)
    requires
        outcomes.len() == inserted(known, nodes@).len(),
    ensures
        ({
            let start = StreamState {
                known,
                removals: Seq::empty(),
                insertions: Seq::empty(),
                phase: Phase::Fetching,
            };
            let (st1, action1) = next::<S>(start, Event::Snapshot(nodes));
            let (end, changes) = run(st1, action1, outcomes);
            &&& changes == removal_changes::<S>(removed(known, nodes@)) + insertion_changes(
                inserted(known, nodes@),
                outcomes,
            )
            &&& end.known == kept(known, nodes@) + built_keys(inserted(known, nodes@), outcomes)
            &&& end.removals.len() == 0
            &&& end.insertions.len() == 0
            &&& end.phase == Phase::AwaitingTick
        }),
{
    lemma_run_drains(
        StreamState {
            known: kept(known, nodes@),
            removals: removed(known, nodes@),
            insertions: inserted(known, nodes@),
            phase: Phase::Draining,
        },
        outcomes,
    );
}

/// A key is among the built keys exactly when the factory built a handle for
/// a pending node with that key; built keys are apart where pending keys are.
pub proof fn lemma_built_keys<S>(nodes: Seq<Liteserver>, outcomes: Seq<Option<S>>)
    requires
        outcomes.len() == nodes.len(),
    ensures
        forall|key: Seq<char>| #[trigger]
            key_texts(built_keys(nodes, outcomes)).contains(key) <==> exists|j: int|
                0 <= j < nodes.len() && outcomes[j] is Some && #[trigger] node_keys(nodes)[j]
                    == key,
        node_keys(nodes).no_duplicates() ==> distinct(built_keys(nodes, outcomes)),
    decreases nodes.len(),
{
    if nodes.len() > 0 {
        let rest = nodes.skip(1);
        let later = outcomes.skip(1);
        lemma_built_keys(rest, later);
        let built = built_keys(nodes, outcomes);
        let tail = built_keys(rest, later);
        assert forall|j: int| 0 <= j < rest.len() implies #[trigger] node_keys(rest)[j]
            == node_keys(nodes)[j + 1] by {}
        assert forall|key: Seq<char>| #[trigger]
            key_texts(built).contains(key) <==> exists|j: int|
                0 <= j < nodes.len() && outcomes[j] is Some && #[trigger] node_keys(nodes)[j]
                    == key by {
            if key_texts(built).contains(key) {
                let i = choose|i: int| 0 <= i < built.len() && key_texts(built)[i] == key;
                if outcomes[0] is Some && i == 0 {
                    assert(node_keys(nodes)[0] == key);
                } else {
                    let k = if outcomes[0] is Some {
                        i - 1
                    } else {
                        i
                    };
                    assert(key_texts(tail)[k] == key);
                    assert(key_texts(tail).contains(key));
                    let j = choose|j: int|
                        0 <= j < rest.len() && later[j] is Some && #[trigger] node_keys(rest)[j]
                            == key;
                    assert(outcomes[j + 1] is Some && node_keys(nodes)[j + 1] == key);
                }
            }
            if exists|j: int|
                0 <= j < nodes.len() && outcomes[j] is Some && #[trigger] node_keys(nodes)[j]
                    == key {
                let j = choose|j: int|
                    0 <= j < nodes.len() && outcomes[j] is Some && #[trigger] node_keys(nodes)[j]
                        == key;
                if j == 0 {
                    assert(key_texts(built)[0] == key);
                } else {
                    assert(later[j - 1] is Some && node_keys(rest)[j - 1] == key);
                    assert(key_texts(tail).contains(key));
                    let i = choose|i: int| 0 <= i < tail.len() && key_texts(tail)[i] == key;
                    let k = if outcomes[0] is Some {
                        i + 1
                    } else {
                        i
                    };
                    assert(key_texts(built)[k] == key);
                }
            }
        }
        if node_keys(nodes).no_duplicates() {
            assert forall|i: int, j: int| 0 <= i < j < rest.len() implies node_keys(rest)[i]
                != node_keys(rest)[j] by {
                assert(node_keys(nodes)[i + 1] != node_keys(nodes)[j + 1]);
            }
            if outcomes[0] is Some {
                assert forall|i: int, j: int| 0 <= i < j < built.len() implies key_texts(built)[i]
                    != key_texts(built)[j] by {
                    if i == 0 {
                        assert(key_texts(tail)[j - 1] == key_texts(built)[j]);
                        assert(key_texts(tail).contains(key_texts(built)[j]));
                        let k = choose|k: int|
                            0 <= k < rest.len() && later[k] is Some && #[trigger] node_keys(
                                rest,
                            )[k] == key_texts(built)[j];
                        assert(node_keys(nodes)[0] != node_keys(nodes)[k + 1]);
                    } else {
                        assert(key_texts(tail)[i - 1] != key_texts(tail)[j - 1]);
                    }
                }
            }
        }
    }
}

/// A node whose build fails stays unknown after its tick, so the next
/// snapshot that still lists it plans its insertion again.
pub proof fn lemma_failed_build_retried<S>(
    known: Seq<String>,
    snapshot: Seq<Liteserver>,
    outcomes: Seq<Option<S>>,
    i: int,
    later: Seq<Liteserver>,
)
    requires
        distinct(known),
        outcomes.len() == inserted(known, snapshot).len(),
        0 <= i < outcomes.len(),
        outcomes[i] is None,
        node_keys(later).contains(inserted(known, snapshot)[i].id@),
    ensures
        ({
            let after = kept(known, snapshot) + built_keys(inserted(known, snapshot), outcomes);
            &&& distinct(after)
            &&& !key_texts(after).contains(inserted(known, snapshot)[i].id@)
            &&& node_keys(inserted(after, later)).contains(inserted(known, snapshot)[i].id@)
        }),
{
    let fresh = inserted(known, snapshot);
    let stay = kept(known, snapshot);
    let built = built_keys(fresh, outcomes);
    let after = stay + built;
    let key = fresh[i].id@;
    lemma_diff_exact(known, snapshot);
    lemma_built_keys(fresh, outcomes);
    assert(key_texts(after) =~= key_texts(stay) + key_texts(built));
    assert(node_keys(fresh)[i] == key);
    assert(node_keys(fresh).contains(key));
    assert forall|a: int, b: int|
        0 <= a < key_texts(stay).len() && 0 <= b < key_texts(built).len() implies key_texts(
        stay,
    )[a] != key_texts(built)[b] by {
        let other = key_texts(built)[b];
        assert(key_texts(built).contains(other));
        assert(key_texts(stay).contains(key_texts(stay)[a]));
        let j = choose|j: int|
            0 <= j < fresh.len() && outcomes[j] is Some && #[trigger] node_keys(fresh)[j] == other;
        assert(node_keys(fresh).contains(other));
    }
    vstd::seq_lib::lemma_no_dup_in_concat(key_texts(stay), key_texts(built));
    if key_texts(built).contains(key) {
        let j = choose|j: int|
            0 <= j < fresh.len() && outcomes[j] is Some && #[trigger] node_keys(fresh)[j] == key;
        assert(node_keys(fresh)[j] == node_keys(fresh)[i]);
    }
    if key_texts(after).contains(key) {
        let a = choose|a: int| 0 <= a < after.len() && key_texts(after)[a] == key;
        if a < stay.len() {
            assert(key_texts(stay)[a] == key);
            assert(key_texts(stay).contains(key));
        } else {
            assert(key_texts(built)[a - stay.len()] == key);
            assert(key_texts(built).contains(key));
        }
    }
    lemma_diff_exact(after, later);
}

/// The keys that a consumer holds after it applied `changes`, in order, to
/// the keys it held.
pub open spec fn routed<S>(held: Set<Seq<char>>, changes: Seq<Change<String, S>>) -> Set<
    Seq<char>,
>
    decreases changes.len(),
{
    if changes.len() == 0 {
        held
    } else {
        let next = match changes[0] {
            Change::Insert(key, _) => held.insert(key@),
            Change::Remove(key) => held.remove(key@),
        };
        routed(next, changes.skip(1))
    }
}

/// Whether every one of `changes` changes what the consumer holds: a key is
/// removed only while it is held, and inserted only while it is not.
pub open spec fn effective<S>(held: Set<Seq<char>>, changes: Seq<Change<String, S>>) -> bool
    decreases changes.len(),
{
    if changes.len() == 0 {
        true
    } else {
        match changes[0] {
            Change::Insert(key, _) => !held.contains(key@) && effective(
                held.insert(key@),
                changes.skip(1),
            ),
            Change::Remove(key) => held.contains(key@) && effective(
                held.remove(key@),
                changes.skip(1),
            ),
        }
    }
}

/// Applying two runs of changes one after the other is applying them joined.
proof fn lemma_routed_joined<S>(
    held: Set<Seq<char>>,
    first: Seq<Change<String, S>>,
    second: Seq<Change<String, S>>,
)
    ensures
        routed(held, first + second) == routed(routed(held, first), second),
        effective(held, first + second) == (effective(held, first) && effective(
            routed(held, first),
            second,
        )),
    decreases first.len(),
{
    if first.len() == 0 {
        assert(first + second =~= second);
    } else {
        let next = match first[0] {
            Change::Insert(key, _) => held.insert(key@),
            Change::Remove(key) => held.remove(key@),
        };
        assert((first + second).skip(1) =~= first.skip(1) + second);
        assert((first + second)[0] == first[0]);
        lemma_routed_joined(next, first.skip(1), second);
    }
}

/// Removing keys that are held, each once, takes exactly those keys away.
proof fn lemma_routed_removals<S>(held: Set<Seq<char>>, keys: Seq<String>)
    requires
        distinct(keys),
        forall|i: int| 0 <= i < keys.len() ==> held.contains(#[trigger] key_texts(keys)[i]),
    ensures
        routed(held, removal_changes::<S>(keys)) == held.difference(key_texts(keys).to_set()),
        effective(held, removal_changes::<S>(keys)),
    decreases keys.len(),
{
    let changes = removal_changes::<S>(keys);
    if keys.len() == 0 {
        assert(held.difference(key_texts(keys).to_set()) =~= held);
    } else {
        let rest = keys.skip(1);
        let next = held.remove(keys[0]@);
        assert(changes.skip(1) =~= removal_changes::<S>(rest));
        assert forall|i: int| 0 <= i < rest.len() implies #[trigger] key_texts(rest)[i]
            == key_texts(keys)[i + 1] by {}
        assert(key_texts(keys)[0] == keys[0]@);
        assert forall|i: int| 0 <= i < rest.len() implies next.contains(
            #[trigger] key_texts(rest)[i],
        ) by {
            assert(key_texts(rest)[i] == key_texts(keys)[i + 1]);
            assert(key_texts(keys)[i + 1] != key_texts(keys)[0]);
        }
        assert forall|i: int, j: int| 0 <= i < j < rest.len() implies key_texts(rest)[i]
            != key_texts(rest)[j] by {
            assert(key_texts(keys)[i + 1] != key_texts(keys)[j + 1]);
        }
        lemma_routed_removals::<S>(next, rest);
        assert(next.difference(key_texts(rest).to_set()) =~= held.difference(
            key_texts(keys).to_set(),
        )) by {
            assert forall|k: Seq<char>|
                key_texts(keys).to_set().contains(k) <==> (k == keys[0]@ || key_texts(
                    rest,
                ).to_set().contains(k)) by {
                if key_texts(keys).contains(k) {
                    let i = choose|i: int| 0 <= i < keys.len() && key_texts(keys)[i] == k;
                    if i > 0 {
                        assert(key_texts(rest)[i - 1] == k);
                    }
                }
                if key_texts(rest).contains(k) {
                    let i = choose|i: int| 0 <= i < rest.len() && key_texts(rest)[i] == k;
                    assert(key_texts(keys)[i + 1] == k);
                }
            }
        }
        assert(held.contains(key_texts(keys)[0]));
    }
}

/// Inserting the nodes that are built, none of them held and each listed
/// once, adds exactly the built keys.
proof fn lemma_routed_insertions<S>(
    held: Set<Seq<char>>,
    nodes: Seq<Liteserver>,
    outcomes: Seq<Option<S>>,
)
    requires
        outcomes.len() == nodes.len(),
        node_keys(nodes).no_duplicates(),
        forall|i: int| 0 <= i < nodes.len() ==> !held.contains(#[trigger] node_keys(nodes)[i]),
    ensures
        routed(held, insertion_changes(nodes, outcomes)) == held.union(
            key_texts(built_keys(nodes, outcomes)).to_set(),
        ),
        effective(held, insertion_changes(nodes, outcomes)),
    decreases nodes.len(),
{
    let changes = insertion_changes(nodes, outcomes);
    let built = built_keys(nodes, outcomes);
    if nodes.len() == 0 {
        assert(key_texts(built).to_set() =~= Set::empty());
        assert(held.union(key_texts(built).to_set()) =~= held);
    } else {
        let rest = nodes.skip(1);
        let later = outcomes.skip(1);
        assert forall|i: int| 0 <= i < rest.len() implies #[trigger] node_keys(rest)[i]
            == node_keys(nodes)[i + 1] by {}
        assert(node_keys(nodes)[0] == nodes[0].id@);
        assert forall|i: int, j: int| 0 <= i < j < rest.len() implies node_keys(rest)[i]
            != node_keys(rest)[j] by {
            assert(node_keys(nodes)[i + 1] != node_keys(nodes)[j + 1]);
        }
        match outcomes[0] {
            Some(handle) => {
                let next = held.insert(nodes[0].id@);
                assert forall|i: int| 0 <= i < rest.len() implies !next.contains(
                    #[trigger] node_keys(rest)[i],
                ) by {
                    assert(node_keys(nodes)[i + 1] != node_keys(nodes)[0]);
                    assert(!held.contains(node_keys(nodes)[i + 1]));
                }
                lemma_routed_insertions(next, rest, later);
                assert(changes.skip(1) =~= insertion_changes(rest, later));
                assert(changes[0] == Change::Insert(nodes[0].id, handle));
                assert(key_texts(built) =~= seq![nodes[0].id@] + key_texts(
                    built_keys(rest, later),
                ));
                assert(next.union(key_texts(built_keys(rest, later)).to_set()) =~= held.union(
                    key_texts(built).to_set(),
                )) by {
                    assert forall|k: Seq<char>|
                        key_texts(built).to_set().contains(k) <==> (k == nodes[0].id@
                            || key_texts(built_keys(rest, later)).to_set().contains(k)) by {
                        let tail = key_texts(built_keys(rest, later));
                        if key_texts(built).contains(k) {
                            let i = choose|i: int|
                                0 <= i < key_texts(built).len() && key_texts(built)[i] == k;
                            if i > 0 {
                                assert(tail[i - 1] == k);
                            }
                        }
                        if tail.contains(k) {
                            let i = choose|i: int| 0 <= i < tail.len() && tail[i] == k;
                            assert(key_texts(built)[i + 1] == k);
                        }
                        if k == nodes[0].id@ {
                            assert(key_texts(built)[0] == k);
                        }
                    }
                }
                assert(!held.contains(node_keys(nodes)[0]));
            },
            None => {
                assert forall|i: int| 0 <= i < rest.len() implies !held.contains(
                    #[trigger] node_keys(rest)[i],
                ) by {
                    assert(!held.contains(node_keys(nodes)[i + 1]));
                }
                lemma_routed_insertions(held, rest, later);
            },
        }
    }
}

/// A consumer that applies the changes of a tick to the keys it held, which
/// were the known keys, holds exactly the keys that are known afterwards; and
/// every change of the tick changes what it holds, so no node is announced
/// twice and none is lost.
pub proof fn lemma_consumer_follows<S>(
    known: Seq<String>,
    snapshot: Seq<Liteserver>,
    outcomes: Seq<Option<S>>,
)
    requires
        distinct(known),
        outcomes.len() == inserted(known, snapshot).len(),
    ensures
        ({
            let changes = removal_changes::<S>(removed(known, snapshot)) + insertion_changes(
                inserted(known, snapshot),
                outcomes,
            );
            let after = kept(known, snapshot) + built_keys(inserted(known, snapshot), outcomes);
            &&& routed(key_texts(known).to_set(), changes) == key_texts(after).to_set()
            &&& effective(key_texts(known).to_set(), changes)
        }),
{
    let held = key_texts(known).to_set();
    let gone = removed(known, snapshot);
    let stay = kept(known, snapshot);
    let fresh = inserted(known, snapshot);
    let built = built_keys(fresh, outcomes);
    let removals = removal_changes::<S>(gone);
    let insertions = insertion_changes(fresh, outcomes);
    lemma_diff_exact(known, snapshot);
    assert forall|i: int| 0 <= i < gone.len() implies held.contains(
        #[trigger] key_texts(gone)[i],
    ) by {
        assert(key_texts(gone).contains(key_texts(gone)[i]));
    }
    lemma_routed_removals::<S>(held, gone);
    let between = held.difference(key_texts(gone).to_set());
    assert(between =~= key_texts(stay).to_set());
    assert forall|i: int| 0 <= i < fresh.len() implies !between.contains(
        #[trigger] node_keys(fresh)[i],
    ) by {
        assert(node_keys(fresh).contains(node_keys(fresh)[i]));
    }
    lemma_routed_insertions(between, fresh, outcomes);
    lemma_routed_joined(held, removals, insertions);
    assert(key_texts(stay + built) =~= key_texts(stay) + key_texts(built));
    assert(key_texts(stay + built).to_set() =~= between.union(key_texts(built).to_set())) by {
        assert forall|k: Seq<char>|
            (key_texts(stay) + key_texts(built)).contains(k) <==> (key_texts(stay).contains(k)
                || key_texts(built).contains(k)) by {
            let joined = key_texts(stay) + key_texts(built);
            if joined.contains(k) {
                let i = choose|i: int| 0 <= i < joined.len() && joined[i] == k;
                if i < stay.len() {
                    assert(key_texts(stay)[i] == k);
                } else {
                    assert(key_texts(built)[i - stay.len()] == k);
                }
            }
            if key_texts(stay).contains(k) {
                let i = choose|i: int| 0 <= i < stay.len() && key_texts(stay)[i] == k;
                assert(joined[i] == k);
            }
            if key_texts(built).contains(k) {
                let i = choose|i: int| 0 <= i < built.len() && key_texts(built)[i] == k;
                assert(joined[i + stay.len()] == k);
            }
        }
    }
}

/// What the consumer is told, and whether the sequence is over afterwards.
/// A change is passed on; a failure is passed on and ends the sequence; the
/// end is passed on; and once the sequence is over the consumer is told so
/// on every poll.
pub open spec fn relayed<S, E>(
    over: bool,
    polled: Poll<Option<Result<Change<String, S>, E>>>,
) -> (bool, Poll<Option<Result<Change<String, S>, E>>>) {
    if over {
        (true, Poll::Ready(None))
    } else {
        match polled {
            Poll::Ready(Some(Ok(change))) => (false, polled),
            Poll::Ready(Some(Err(e))) => (true, polled),
            Poll::Ready(None) => (true, polled),
            Poll::Pending => (false, polled),
        }
    }
}

/// After a failure or the end was handed on, no change is handed on any
/// more, and the consumer is never left waiting.
pub proof fn lemma_relay_ends<S, E>(
    polled: Poll<Option<Result<Change<String, S>, E>>>,
    later: Poll<Option<Result<Change<String, S>, E>>>,
)
    requires
        polled is Ready,
        !(polled->Ready_0 is Some && polled->Ready_0->0 is Ok),
    ensures
        relayed(false, polled).0,
        relayed(false, polled).1 == polled,
        relayed(relayed(false, polled).0, later) == (
            true,
            Poll::<Option<Result<Change<String, S>, E>>>::Ready(None),
        ),
{
}

/// While a build is awaited, a failed build is followed by the build of the
/// next pending node, or by the wait for the timer where none is pending.
pub proof fn lemma_failed_build_moves_on<S>(st: StreamState)
    requires
        st.wf(),
        st.phase == Phase::Building,
    ensures
        ({
            let (after, action) = next::<S>(st, Event::BuildFailed);
            &&& after.known == st.known
            &&& after.insertions == st.insertions.skip(1)
            &&& st.insertions.len() > 1 ==> action == Action::<S>::Build(st.insertions[1])
                && after.phase == Phase::Building
            &&& st.insertions.len() == 1 ==> action == Action::<S>::AwaitTick && after.phase
                == Phase::AwaitingTick
        }),
{
}

/// The membership stream of a fleet: it remembers which nodes the consumer
/// knows and turns each snapshot into removals followed by insertions.
pub struct DynamicServiceStream {
    known: Vec<String>,
    removals: Vec<String>,
    announced: usize,
    insertions: Vec<Liteserver>,
    settled: usize,
    phase: Phase,
}

impl View for DynamicServiceStream {
    type V = StreamState;

    closed spec fn view(&self) -> StreamState {
        StreamState {
            known: self.known@,
            removals: self.removals@.skip(self.announced as int),
            insertions: self.insertions@.skip(self.settled as int),
            phase: self.phase,
        }
    }
}

impl DynamicServiceStream {
    /// The cursors lie within their queues.
    pub closed spec fn bounded(&self) -> bool {
        self.announced <= self.removals.len() && self.settled <= self.insertions.len()
    }

    /// The invariant of the stream.
    pub open spec fn wf(&self) -> bool {
        self.bounded() && self@.wf()
    }

    /// A stream that knows no node yet.
    pub fn new() -> (stream: DynamicServiceStream)
        ensures
            stream.wf(),
            stream@ == StreamState::initial(),
    {
        let stream = DynamicServiceStream {
            known: Vec::new(),
            removals: Vec::new(),
            announced: 0,
            insertions: Vec::new(),
            settled: 0,
            phase: Phase::Draining,
        };
        assert(stream@.removals =~= Seq::empty());
        assert(stream@.insertions =~= Seq::empty());
        stream
    }

    /// The phase of the stream.
    pub fn phase(&self) -> (phase: Phase)
        ensures
            phase == self@.phase,
    {
        self.phase
    }

    /// The keys of the nodes that the consumer holds a handle for.
    pub fn known(&self) -> (keys: &Vec<String>)
        ensures
            keys@ == self@.known,
    {
        &self.known
    }

    /// Passes on what the source of changes reports, and ends the sequence
    /// for good once the source failed or ended: the failure is handed on,
    /// and from then on the consumer is told that the sequence is over,
    /// whatever the source reports. `over` remembers that between polls.
    pub fn poll_next<S, E>(
        over: &mut bool,
        polled: Poll<Option<Result<Change<String, S>, E>>>,
    ) -> (out: Poll<Option<Result<Change<String, S>, E>>>)
        ensures
            (*final(over), out) == relayed(*old(over), polled),
    {
        if *over {
            return Poll::Ready(None);
        }
        match polled {
            Poll::Ready(Some(Ok(change))) => Poll::Ready(Some(Ok(change))),
            Poll::Ready(Some(Err(e))) => {
                *over = true;
                Poll::Ready(Some(Err(e)))
            },
            Poll::Ready(None) => {
                *over = true;
                Poll::Ready(None)
            },
            Poll::Pending => Poll::Pending,
        }
    }

    fn stop<S>(&mut self) -> (action: Action<S>)
        requires
            old(self).wf(),
        ensures
            final(self).wf(),
            final(self)@ == (StreamState { phase: Phase::Stopped, ..old(self)@ }),
            action == Action::<S>::End,
    {
        self.phase = Phase::Stopped;
        Action::End
    }

    fn proceed<S>(&mut self) -> (action: Action<S>)
        requires
            old(self).bounded(),
        ensures
            final(self).bounded(),
            (final(self)@, action) == advance::<S>(old(self)@),
    {
        if self.announced < self.removals.len() {
            let key = self.removals[self.announced].clone();
            proof {
                assert(self.removals@.skip(self.announced as int).skip(1)
                    =~= self.removals@.skip(self.announced + 1));
            }
            self.announced = self.announced + 1;
            self.phase = Phase::Draining;
            Action::Emit(Change::Remove(key))
        } else if self.settled < self.insertions.len() {
            let node = self.insertions[self.settled].duplicate();
            self.phase = Phase::Building;
            Action::Build(node)
        } else {
            self.phase = Phase::AwaitingTick;
            Action::AwaitTick
        }
    }

    /// Takes what happened outside and says what to do next.
    pub fn step<S>(&mut self, event: Event<S>) -> (action: Action<S>)
        requires
            old(self).wf(),
        ensures
            final(self).wf(),
            (final(self)@, action) == next(old(self)@, event),
    {
        proof {
            lemma_next_wf(self@, event);
        }
        match event {
            Event::Resume => match self.phase {
                Phase::Draining => self.proceed(),
                _ => self.stop(),
            },
            Event::Tick => match self.phase {
                Phase::AwaitingTick => {
                    self.phase = Phase::Fetching;
                    Action::Fetch
                },
                _ => self.stop(),
            },
            Event::Snapshot(nodes) => match self.phase {
                Phase::Fetching => {
                    let plan = diff(&self.known, &nodes);
                    self.known = plan.kept;
                    self.removals = plan.removals;
                    self.announced = 0;
                    self.insertions = plan.insertions;
                    self.settled = 0;
                    self.phase = Phase::Draining;
                    proof {
                        assert(self.removals@.skip(0) =~= self.removals@);
                        assert(self.insertions@.skip(0) =~= self.insertions@);
                    }
                    self.proceed()
                },
                _ => self.stop(),
            },
            Event::FetchFailed => self.stop(),
            Event::Built(handle) => match self.phase {
                Phase::Building => {
                    let key = self.insertions[self.settled].id.clone();
                    proof {
                        assert(self.insertions@.skip(self.settled as int).skip(1)
                            =~= self.insertions@.skip(self.settled + 1));
                    }
                    self.known.push(key.clone());
                    self.settled = self.settled + 1;
                    self.phase = Phase::Draining;
                    Action::Emit(Change::Insert(key, handle))
                },
                _ => self.stop(),
            },
            Event::BuildFailed => match self.phase {
                Phase::Building => {
                    proof {
                        assert(self.insertions@.skip(self.settled as int).skip(1)
                            =~= self.insertions@.skip(self.settled + 1));
                    }
                    self.settled = self.settled + 1;
                    self.proceed()
                },
                _ => self.stop(),
            },
            Event::FactoryFailed => self.stop(),
        }
    }
}

} // verus!
