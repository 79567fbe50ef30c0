//! The broadcast hub: the registry of live sessions' send handles, each with
//! a bounded outbound queue, best-effort fan-out, and pruning of handles
//! whose delivery fails.

use vstd::prelude::*;

verus! {

/// The spec-level image of one registered handle.
#[verifier::ext_equal]
pub struct HandleView {
    pub id: u64,
    pub queue: Seq<Seq<char>>,
}

/// One registered send handle: its registration id and the bounded queue of
/// lines delivered to it but not yet drained by its session's writer.
pub struct Handle {
    id: u64,
    queue: Vec<String>,
}

impl View for Handle {
    type V = HandleView;

    closed spec fn view(&self) -> HandleView {
        HandleView { id: self.id, queue: self.queue.deep_view() }
    }
}

impl DeepView for Handle {
    type V = HandleView;

    closed spec fn deep_view(&self) -> HandleView {
        self@
    }
}

/// Whether some handle in the registry carries the given id.
pub open spec fn has_id(handles: Seq<HandleView>, id: u64) -> bool {
    exists|i: int| 0 <= i < handles.len() && (#[trigger] handles[i]).id == id
}

/// No two handles share an id.
pub open spec fn unique_ids(handles: Seq<HandleView>) -> bool {
    forall|i: int, j: int|
        0 <= i < j < handles.len() ==> (#[trigger] handles[i]).id != (#[trigger] handles[j]).id
}

/// The pending queue of the first handle with the given id; empty when no
/// handle carries it.
pub open spec fn queue_of(handles: Seq<HandleView>, id: u64) -> Seq<Seq<char>>
    decreases handles.len(),
{
    if handles.len() == 0 {
        Seq::empty()
    } else if handles[0].id == id {
        handles[0].queue
    } else {
        queue_of(handles.drop_first(), id)
    }
}

/// One handle after a line lands at the tail of its queue.
pub open spec fn delivered(h: HandleView, line: Seq<char>) -> HandleView {
    HandleView { id: h.id, queue: h.queue.push(line) }
}

/// The registry after one broadcast of `line` with per-handle queue bound
/// `cap`: every handle whose queue has room receives the line at its tail; a
/// handle whose queue is full fails delivery and is removed in the same
/// pass. Relative order of the surviving handles is kept.
pub open spec fn deliver(handles: Seq<HandleView>, line: Seq<char>, cap: nat) -> Seq<HandleView>
    decreases handles.len(),
{
    if handles.len() == 0 {
        Seq::empty()
    } else {
        let rest = deliver(handles.drop_last(), line, cap);
        if handles.last().queue.len() < cap {
            rest.push(delivered(handles.last(), line))
        } else {
            rest
        }
    }
}

/// The registry after broadcasting each of `lines`, in order.
pub open spec fn deliver_all(
    handles: Seq<HandleView>,
    lines: Seq<Seq<char>>,
    cap: nat,
) -> Seq<HandleView>
    decreases lines.len(),
{
    if lines.len() == 0 {
        handles
    } else {
        deliver(deliver_all(handles, lines.drop_last(), cap), lines.last(), cap)
    }
}

/// The registry with every handle of the given id removed.
pub open spec fn remove_id(handles: Seq<HandleView>, id: u64) -> Seq<HandleView>
    decreases handles.len(),
{
    if handles.len() == 0 {
        Seq::empty()
    } else {
        let rest = remove_id(handles.drop_last(), id);
        if handles.last().id == id {
            rest
        } else {
            rest.push(handles.last())
        }
    }
}

/// The registry with the queue of the given id drained.
pub open spec fn drained(handles: Seq<HandleView>, id: u64) -> Seq<HandleView> {
    handles.map_values(
        |h: HandleView|
            if h.id == id {
                HandleView { id: h.id, queue: Seq::empty() }
            } else {
                h
            },
    )
}

/// Holds the set of live sessions' send handles; distributes one incoming
/// message to all of them; removes handles that fail to accept delivery.
pub struct Hub {
    queue_capacity: usize,
    next_id: u64,
    handles: Vec<Handle>,
}

impl View for Hub {
    type V = Seq<HandleView>;

    closed spec fn view(&self) -> Seq<HandleView> {
        self.handles.deep_view()
    }
}

impl Hub {
    /// The bound every pending queue is held to.
    pub closed spec fn queue_capacity(&self) -> nat {
        self.queue_capacity as nat
    }

    /// The id the next registration will be given.
    pub closed spec fn fresh_id(&self) -> u64 {
        self.next_id
    }

    pub open spec fn wf(&self) -> bool {
        &&& self.queue_capacity() >= 1
        &&& unique_ids(self@)
        &&& forall|i: int|
            0 <= i < self@.len() ==> (#[trigger] self@[i]).queue.len() <= self.queue_capacity()
        &&& forall|i: int| 0 <= i < self@.len() ==> (#[trigger] self@[i]).id < self.fresh_id()
    }

    /// An empty registry with the given per-handle queue bound.
    pub fn new(queue_capacity: usize) -> (hub: Hub)
        requires
            queue_capacity >= 1,
        ensures
            hub.wf(),
            hub@ == Seq::<HandleView>::empty(),
            hub.queue_capacity() == queue_capacity,
            hub.fresh_id() == 0,
    {
        let hub = Hub { queue_capacity, next_id: 0, handles: Vec::new() };
        proof {
            assert(hub@ =~= Seq::<HandleView>::empty());
        }
        hub
    }

    /// The id the next registration would be given; `u64::MAX` means the
    /// id space is exhausted and no further registration is possible.
    pub fn fresh_registration_id(&self) -> (id: u64)
        ensures
            id == self.fresh_id(),
    {
        self.next_id
    }

    /// The number of registered handles.
    pub fn len(&self) -> (n: usize)
        ensures
            n == self@.len(),
    {
        self.handles.len()
    }

    /// Whether a handle with this registration id is currently registered.
    pub fn is_registered(&self, id: u64) -> (registered: bool)
        ensures
            registered == has_id(self@, id),
    {
        let mut i: usize = 0;
        while i < self.handles.len()
            invariant
                i <= self.handles.len(),
                self@.len() == self.handles.len(),
                forall|j: int| 0 <= j < i ==> (#[trigger] self@[j]).id != id,
            decreases self.handles.len() - i,
        {
            if self.handles[i].id == id {
                proof {
                    assert(self@[i as int].id == id);
                }
                return true;
            }
            i = i + 1;
        }
        false
    }

    /// Adds a fresh handle with an empty queue and returns its registration
    /// id, which no earlier or current registration carries.
    pub fn register(&mut self) -> (id: u64)
        requires
            old(self).wf(),
            old(self).fresh_id() < u64::MAX,
        ensures
            final(self).wf(),
            final(self).queue_capacity() == old(self).queue_capacity(),
            id == old(self).fresh_id(),
            !has_id(old(self)@, id),
            final(self)@ == old(self)@.push(HandleView { id, queue: Seq::empty() }),
            final(self).fresh_id() == old(self).fresh_id() + 1,
            queue_of(final(self)@, id) == Seq::<Seq<char>>::empty(),
    {
        let id = self.next_id;
        self.next_id = self.next_id + 1;
        let ghost before = self@;
        self.handles.push(Handle { id, queue: Vec::new() });
        proof {
            assert(self@ =~~= before.push(HandleView { id, queue: Seq::empty() }));
            lemma_queue_of_found(self@, id, before.len() as int);
        }
        id
    }

    /// Removes the handle with this id, if any; removing an id that is not
    /// registered (any more) is a no-op, so double-unregister is harmless.
    pub fn unregister(&mut self, id: u64)
        requires
            old(self).wf(),
        ensures
            final(self).wf(),
            final(self).queue_capacity() == old(self).queue_capacity(),
            final(self).fresh_id() == old(self).fresh_id(),
            final(self)@ == remove_id(old(self)@, id),
    {
        let mut i: usize = 0;
        while i < self.handles.len()
            invariant
                *self == *old(self),
                old(self).wf(),
                i <= self.handles.len(),
                self@.len() == self.handles.len(),
                forall|j: int| 0 <= j < i ==> (#[trigger] self@[j]).id != id,
            decreases self.handles.len() - i,
        {
            if self.handles[i].id == id {
                let ghost before = self@;
                self.handles.remove(i);
                proof {
                    assert(self@ =~= before.remove(i as int));
                    lemma_remove_id_at(before, id, i as int);
                }
                return;
            }
            i = i + 1;
        }
        proof {
            lemma_remove_id_absent(self@, id);
        }
    }
}

impl Hub {
    /// Delivers `line` to every currently registered handle, best-effort: a
    /// handle whose bounded queue has room gets the line at its tail; one
    /// whose queue is full fails delivery and is unregistered as part of
    /// this same broadcast pass, never left for a later one. Every handle
    /// receives its own copy, the sender's included (echo is the policy).
    pub fn broadcast(&mut self, line: &str)
        requires
            old(self).wf(),
        ensures
            final(self).wf(),
            final(self).queue_capacity() == old(self).queue_capacity(),
            final(self).fresh_id() == old(self).fresh_id(),
            final(self)@ == deliver(old(self)@, line@, old(self).queue_capacity()),
    {
        let ghost orig = self@;
        let ghost cap = self.queue_capacity();
        let mut i: usize = 0;
        let ghost mut k: int = 0;
        proof {
            assert(orig.subrange(0, 0) =~= Seq::<HandleView>::empty());
            assert(orig.subrange(0, orig.len() as int) =~= orig);
            assert(self@ =~= deliver(orig.subrange(0, 0), line@, cap) + orig.subrange(
                0,
                orig.len() as int,
            ));
        }
        while i < self.handles.len()
            invariant
                old(self).wf(),
                self.queue_capacity == old(self).queue_capacity,
                self.next_id == old(self).next_id,
                cap == self.queue_capacity(),
                orig == old(self)@,
                0 <= k <= orig.len(),
                self@.len() == self.handles.len(),
                i == deliver(orig.subrange(0, k), line@, cap).len(),
                self.handles.len() - i == orig.len() - k,
                self@ == deliver(orig.subrange(0, k), line@, cap) + orig.subrange(
                    k,
                    orig.len() as int,
                ),
            decreases orig.len() - k,
        {
            let ghost pre = self@;
            let ghost part = deliver(orig.subrange(0, k), line@, cap);
            proof {
                assert(pre[i as int] == orig.subrange(k, orig.len() as int)[0]);
                assert(pre[i as int] == orig[k]);
                assert(orig.subrange(0, k + 1).drop_last() =~= orig.subrange(0, k));
                assert(orig.subrange(0, k + 1).last() == orig[k]);
            }
            if self.handles[i].queue.len() < self.queue_capacity {
                let text = line.to_owned();
                let h = &mut self.handles[i];
                h.queue.push(text);
                proof {
                    assert(self@ =~~= pre.update(i as int, delivered(orig[k], line@)));
                    assert(self@ =~= deliver(orig.subrange(0, k + 1), line@, cap)
                        + orig.subrange(k + 1, orig.len() as int));
                }
                i = i + 1;
            } else {
                self.handles.remove(i);
                proof {
                    assert(self@ =~= pre.remove(i as int));
                    assert(self@ =~= deliver(orig.subrange(0, k + 1), line@, cap)
                        + orig.subrange(k + 1, orig.len() as int));
                }
            }
            proof {
                k = k + 1;
            }
        }
        proof {
            assert(k == orig.len());
            assert(orig.subrange(0, k) =~= orig);
            assert(orig.subrange(k, orig.len() as int) =~= Seq::<HandleView>::empty());
            assert(self@ =~= deliver(orig, line@, cap));
            lemma_deliver_preserves(orig, line@, cap);
            assert forall|idx: int|
                0 <= idx < self@.len() implies (#[trigger] self@[idx]).id < self.fresh_id() by {
                assert(has_id(self@, self@[idx].id));
                assert(has_id(orig, self@[idx].id));
                let v = choose|t: int| 0 <= t < orig.len() && orig[t].id == self@[idx].id;
                assert(orig[v].id < old(self).fresh_id());
            };
        }
    }

    /// Hands out everything pending for this id, in delivery order, and
    /// leaves that handle's queue empty; an id that is not registered
    /// yields nothing.
    pub fn take_pending(&mut self, id: u64) -> (lines: Vec<String>)
        requires
            old(self).wf(),
        ensures
            final(self).wf(),
            final(self).queue_capacity() == old(self).queue_capacity(),
            final(self).fresh_id() == old(self).fresh_id(),
            lines.deep_view() == queue_of(old(self)@, id),
            final(self)@ == drained(old(self)@, id),
    {
        let mut lines: Vec<String> = Vec::new();
        let mut i: usize = 0;
        while i < self.handles.len()
            invariant
                *self == *old(self),
                old(self).wf(),
                i <= self.handles.len(),
                self@.len() == self.handles.len(),
                lines@.len() == 0,
                forall|j: int| 0 <= j < i ==> (#[trigger] self@[j]).id != id,
            decreases self.handles.len() - i,
        {
            if self.handles[i].id == id {
                let ghost before = self@;
                let h = &mut self.handles[i];
                core::mem::swap(&mut h.queue, &mut lines);
                proof {
                    lemma_queue_of_found(before, id, i as int);
                    assert(lines.deep_view() =~= queue_of(before, id));
                    assert(self@ =~~= drained(before, id));
                }
                return lines;
            }
            i = i + 1;
        }
        proof {
            lemma_queue_of_absent(self@, id);
            assert(lines.deep_view() =~= Seq::<Seq<char>>::empty());
            assert(self@ =~~= drained(self@, id));
        }
        lines
    }
}

/// Delivery keeps the registry invariants: surviving queues stay within the
/// bound, ids are drawn from the old registry (so no id appears that was
/// not registered, and distinct handles keep distinct ids).
proof fn lemma_deliver_preserves(handles: Seq<HandleView>, line: Seq<char>, cap: nat)
    requires
        unique_ids(handles),
    ensures
        unique_ids(deliver(handles, line, cap)),
        forall|i: int|
            0 <= i < deliver(handles, line, cap).len() ==> (#[trigger] deliver(
                handles,
                line,
                cap,
            )[i]).queue.len() <= cap,
        forall|id: u64|
            #[trigger] has_id(deliver(handles, line, cap), id) ==> has_id(handles, id),
    decreases handles.len(),
{
    if handles.len() > 0 {
        let prefix = handles.drop_last();
        let last = handles.last();
        assert(unique_ids(prefix)) by {
            assert(forall|i: int| 0 <= i < prefix.len() ==> prefix[i] == handles[i]);
        }
        lemma_deliver_preserves(prefix, line, cap);
        let rest = deliver(prefix, line, cap);
        let result = deliver(handles, line, cap);
        assert forall|id: u64| #[trigger] has_id(result, id) implies has_id(handles, id) by {
            let w = choose|i: int| 0 <= i < result.len() && result[i].id == id;
            if w < rest.len() {
                assert(has_id(rest, id));
                assert(has_id(prefix, id));
                let v = choose|i: int| 0 <= i < prefix.len() && prefix[i].id == id;
                assert(handles[v].id == id);
            } else {
                assert(handles[handles.len() - 1].id == id);
            }
        }
        if last.queue.len() < cap {
            assert(!has_id(rest, last.id)) by {
                if has_id(rest, last.id) {
                    assert(has_id(prefix, last.id));
                    let v = choose|i: int| 0 <= i < prefix.len() && prefix[i].id == last.id;
                    assert(handles[v].id == handles[handles.len() - 1].id);
                }
            }
            assert(unique_ids(result)) by {
                assert(forall|i: int|
                    0 <= i < rest.len() ==> #[trigger] result[i] == rest[i]);
                assert(result[result.len() - 1].id == last.id);
            }
        }
    }
}

/// When every handle's id differs from `id`, its pending queue is empty.
proof fn lemma_queue_of_absent(handles: Seq<HandleView>, id: u64)
    requires
        forall|j: int| 0 <= j < handles.len() ==> (#[trigger] handles[j]).id != id,
    ensures
        queue_of(handles, id) == Seq::<Seq<char>>::empty(),
    decreases handles.len(),
{
    if handles.len() > 0 {
        assert(forall|j: int|
            0 <= j < handles.drop_first().len() ==> #[trigger] handles.drop_first()[j]
                == handles[j + 1]);
        lemma_queue_of_absent(handles.drop_first(), id);
    }
}

/// When every handle's id differs from `id`, removal changes nothing.
proof fn lemma_remove_id_absent(handles: Seq<HandleView>, id: u64)
    requires
        forall|j: int| 0 <= j < handles.len() ==> (#[trigger] handles[j]).id != id,
    ensures
        remove_id(handles, id) == handles,
    decreases handles.len(),
{
    if handles.len() > 0 {
        lemma_remove_id_absent(handles.drop_last(), id);
        assert(remove_id(handles, id) =~= handles);
    }
}

/// When exactly position `at` carries `id`, removal removes that position.
proof fn lemma_remove_id_at(handles: Seq<HandleView>, id: u64, at: int)
    requires
        0 <= at < handles.len(),
        handles[at].id == id,
        forall|j: int| 0 <= j < handles.len() && j != at ==> (#[trigger] handles[j]).id != id,
    ensures
        remove_id(handles, id) == handles.remove(at),
    decreases handles.len(),
{
    if at == handles.len() - 1 {
        lemma_remove_id_absent(handles.drop_last(), id);
        assert(remove_id(handles, id) =~= handles.remove(at));
    } else {
        lemma_remove_id_at(handles.drop_last(), id, at);
        assert(handles.drop_last().remove(at).push(handles.last()) =~= handles.remove(at));
    }
}

/// Dropping a head handle that does not carry `id` changes neither whether
/// `id` is registered nor its pending queue.
proof fn lemma_has_id_drop_first(handles: Seq<HandleView>, id: u64)
    requires
        handles.len() > 0,
        handles[0].id != id,
    ensures
        has_id(handles, id) == has_id(handles.drop_first(), id),
{
    if has_id(handles, id) {
        let w = choose|i: int| 0 <= i < handles.len() && (#[trigger] handles[i]).id == id;
        assert(handles.drop_first()[w - 1] == handles[w]);
        assert(has_id(handles.drop_first(), id));
    }
    if has_id(handles.drop_first(), id) {
        let w = choose|i: int|
            0 <= i < handles.drop_first().len() && (#[trigger] handles.drop_first()[i]).id == id;
        assert(handles[w + 1] == handles.drop_first()[w]);
        assert(has_id(handles, id));
    }
}

/// The pending queue of `id` after a handle is appended: unchanged when
/// `id` was already registered (first match wins), the new handle's queue
/// when the new handle carries `id`, empty otherwise.
proof fn lemma_queue_of_snoc(handles: Seq<HandleView>, x: HandleView, id: u64)
    ensures
        queue_of(handles.push(x), id) == (if has_id(handles, id) {
            queue_of(handles, id)
        } else if x.id == id {
            x.queue
        } else {
            Seq::<Seq<char>>::empty()
        }),
    decreases handles.len(),
{
    let s = handles.push(x);
    if handles.len() == 0 {
        assert(s[0] == x);
        if x.id != id {
            assert(s.drop_first() =~= Seq::<HandleView>::empty());
            assert(queue_of(s, id) == queue_of(s.drop_first(), id));
        } else {
            assert(queue_of(s, id) == x.queue);
        }
        assert(!has_id(handles, id));
    } else {
        assert(s[0] == handles[0]);
        if handles[0].id == id {
            assert(has_id(handles, id));
            assert(queue_of(s, id) == handles[0].queue);
            assert(queue_of(handles, id) == handles[0].queue);
        } else {
            assert(s.drop_first() =~= handles.drop_first().push(x));
            assert(queue_of(s, id) == queue_of(s.drop_first(), id));
            assert(queue_of(handles, id) == queue_of(handles.drop_first(), id));
            lemma_queue_of_snoc(handles.drop_first(), x, id);
            lemma_has_id_drop_first(handles, id);
        }
    }
}

/// One broadcast appends the line to the pending queue of a registered
/// handle whose queue has room, and keeps that handle registered.
proof fn lemma_deliver_queue(handles: Seq<HandleView>, line: Seq<char>, cap: nat, id: u64)
    requires
        unique_ids(handles),
        has_id(handles, id),
        queue_of(handles, id).len() < cap,
    ensures
        has_id(deliver(handles, line, cap), id),
        queue_of(deliver(handles, line, cap), id) == queue_of(handles, id).push(line),
    decreases handles.len(),
{
    let prefix = handles.drop_last();
    let last = handles.last();
    let rest = deliver(prefix, line, cap);
    let result = deliver(handles, line, cap);
    assert(unique_ids(prefix)) by {
        assert(forall|i: int| 0 <= i < prefix.len() ==> prefix[i] == handles[i]);
    }
    assert(prefix.push(last) =~= handles);
    lemma_deliver_preserves(prefix, line, cap);
    if last.id == id {
        assert(!has_id(prefix, id)) by {
            if has_id(prefix, id) {
                let v = choose|i: int| 0 <= i < prefix.len() && (#[trigger] prefix[i]).id == id;
                assert(handles[v].id == handles[handles.len() - 1].id);
            }
        }
        lemma_queue_of_snoc(prefix, last, id);
        assert(queue_of(handles, id) == last.queue);
        assert(result == rest.push(delivered(last, line)));
        assert(!has_id(rest, id));
        lemma_queue_of_snoc(rest, delivered(last, line), id);
        assert(result[result.len() - 1].id == id);
        assert(has_id(result, id));
    } else {
        assert(has_id(prefix, id)) by {
            let w = choose|i: int| 0 <= i < handles.len() && (#[trigger] handles[i]).id == id;
            assert(prefix[w] == handles[w]);
        }
        lemma_queue_of_snoc(prefix, last, id);
        lemma_deliver_queue(prefix, line, cap, id);
        if last.queue.len() < cap {
            lemma_queue_of_snoc(rest, delivered(last, line), id);
            assert(has_id(result, id)) by {
                let w = choose|i: int| 0 <= i < rest.len() && (#[trigger] rest[i]).id == id;
                assert(result[w] == rest[w]);
            }
        }
    }
}

/// One broadcast removes a registered handle whose queue is full.
proof fn lemma_deliver_drops_full(handles: Seq<HandleView>, line: Seq<char>, cap: nat, id: u64)
    requires
        unique_ids(handles),
        has_id(handles, id),
        queue_of(handles, id).len() >= cap,
    ensures
        !has_id(deliver(handles, line, cap), id),
    decreases handles.len(),
{
    let prefix = handles.drop_last();
    let last = handles.last();
    let rest = deliver(prefix, line, cap);
    let result = deliver(handles, line, cap);
    assert(unique_ids(prefix)) by {
        assert(forall|i: int| 0 <= i < prefix.len() ==> prefix[i] == handles[i]);
    }
    assert(prefix.push(last) =~= handles);
    lemma_deliver_preserves(prefix, line, cap);
    if last.id == id {
        assert(!has_id(prefix, id)) by {
            if has_id(prefix, id) {
                let v = choose|i: int| 0 <= i < prefix.len() && (#[trigger] prefix[i]).id == id;
                assert(handles[v].id == handles[handles.len() - 1].id);
            }
        }
        lemma_queue_of_snoc(prefix, last, id);
        assert(queue_of(handles, id) == last.queue);
        assert(result == rest);
        assert(!has_id(rest, id));
    } else {
        assert(has_id(prefix, id)) by {
            let w = choose|i: int| 0 <= i < handles.len() && (#[trigger] handles[i]).id == id;
            assert(prefix[w] == handles[w]);
        }
        lemma_queue_of_snoc(prefix, last, id);
        lemma_deliver_drops_full(prefix, line, cap, id);
        if last.queue.len() < cap {
            assert(!has_id(result, id)) by {
                if has_id(result, id) {
                    let w = choose|i: int|
                        0 <= i < result.len() && (#[trigger] result[i]).id == id;
                    if w < rest.len() {
                        assert(rest[w].id == id);
                        assert(has_id(rest, id));
                    }
                }
            }
        }
    }
}

/// FIFO-per-recipient law: across successive broadcasts, a registered
/// handle with room for all of them receives exactly those lines, appended
/// in broadcast order, regardless of the other handles' state.
pub proof fn lemma_fifo_per_recipient(
    handles: Seq<HandleView>,
    lines: Seq<Seq<char>>,
    cap: nat,
    id: u64,
)
    requires
        unique_ids(handles),
        has_id(handles, id),
        queue_of(handles, id).len() + lines.len() <= cap,
    ensures
        unique_ids(deliver_all(handles, lines, cap)),
        has_id(deliver_all(handles, lines, cap), id),
        queue_of(deliver_all(handles, lines, cap), id) == queue_of(handles, id) + lines,
    decreases lines.len(),
{
    if lines.len() == 0 {
        assert(queue_of(handles, id) + lines =~= queue_of(handles, id));
    } else {
        lemma_fifo_per_recipient(handles, lines.drop_last(), cap, id);
        let mid = deliver_all(handles, lines.drop_last(), cap);
        lemma_deliver_queue(mid, lines.last(), cap, id);
        lemma_deliver_preserves(mid, lines.last(), cap);
        assert(queue_of(handles, id) + lines =~= (queue_of(handles, id)
            + lines.drop_last()).push(lines.last()));
    }
}

/// Registration-order law: a freshly registered handle (an id no other
/// handle carries, an empty queue) receives exactly the lines broadcast
/// after its registration, in broadcast order — no duplication, no gap.
pub proof fn lemma_registration_order(
    handles: Seq<HandleView>,
    lines: Seq<Seq<char>>,
    cap: nat,
    id: u64,
)
    requires
        unique_ids(handles),
        !has_id(handles, id),
        1 <= lines.len() <= cap || lines.len() == 0,
    ensures
        queue_of(
            deliver_all(handles.push((HandleView { id, queue: Seq::empty() })), lines, cap),
            id,
        ) == lines,
{
    let fresh = HandleView { id, queue: Seq::empty() };
    let joined = handles.push(fresh);
    lemma_queue_of_snoc(handles, fresh, id);
    assert(joined[joined.len() - 1].id == id);
    assert(has_id(joined, id));
    assert(unique_ids(joined)) by {
        assert forall|i: int, j: int|
            0 <= i < j < joined.len() implies (#[trigger] joined[i]).id != (
        #[trigger] joined[j]).id by {
            if j == joined.len() - 1 {
                assert(joined[i] == handles[i]);
                if handles[i].id == id {
                    assert(has_id(handles, id));
                }
            } else {
                assert(joined[i] == handles[i]);
                assert(joined[j] == handles[j]);
            }
        }
    }
    lemma_fifo_per_recipient(joined, lines, cap, id);
    assert(Seq::<Seq<char>>::empty() + lines =~= lines);
}

/// Fault-isolation law: when one registered handle's queue is full (its
/// delivery fails), a broadcast still reaches every other registered handle
/// with room; the failing handle is removed in the same pass and receives
/// no subsequent broadcast.
pub proof fn lemma_fault_isolation(
    handles: Seq<HandleView>,
    line: Seq<char>,
    cap: nat,
    full_id: u64,
    ok_id: u64,
)
    requires
        unique_ids(handles),
        has_id(handles, full_id),
        queue_of(handles, full_id).len() >= cap,
        has_id(handles, ok_id),
        queue_of(handles, ok_id).len() < cap,
    ensures
        !has_id(deliver(handles, line, cap), full_id),
        queue_of(deliver(handles, line, cap), ok_id) == queue_of(handles, ok_id).push(line),
        forall|next: Seq<char>| !has_id(deliver(deliver(handles, line, cap), next, cap), full_id),

{
    lemma_deliver_drops_full(handles, line, cap, full_id);
    lemma_deliver_queue(handles, line, cap, ok_id);
    lemma_deliver_preserves(handles, line, cap);
    assert forall|next: Seq<char>|
        !has_id(deliver(deliver(handles, line, cap), next, cap), full_id) by {
        lemma_deliver_preserves(deliver(handles, line, cap), next, cap);
    }
}

/// Unregistering is idempotent: removing an id a second time is a no-op.
pub proof fn lemma_unregister_idempotent(handles: Seq<HandleView>, id: u64)
    ensures
        remove_id(remove_id(handles, id), id) == remove_id(handles, id),
    decreases handles.len(),
{
    if handles.len() > 0 {
        lemma_unregister_idempotent(handles.drop_last(), id);
        let rest = remove_id(handles.drop_last(), id);
        if handles.last().id != id {
            let extended = rest.push(handles.last());
            assert(extended.drop_last() =~= rest);
            assert(extended.last() == handles.last());
            assert(remove_id(extended, id) == remove_id(rest, id).push(handles.last()));
        }
    }
}

/// When positions before `at` all miss `id` and `at` carries it, the pending
/// queue of `id` is the queue at `at`.
proof fn lemma_queue_of_found(handles: Seq<HandleView>, id: u64, at: int)
    requires
        0 <= at < handles.len(),
        handles[at].id == id,
        forall|j: int| 0 <= j < at ==> (#[trigger] handles[j]).id != id,
    ensures
        queue_of(handles, id) == handles[at].queue,
    decreases at,
{
    if at > 0 {
        lemma_queue_of_found(handles.drop_first(), id, at - 1);
    }
}

} // verus!
