//! The shortcut registry: the single owner of the shortcut list. Every
//! mutation validates first, then mutates, then yields the document to
//! persist, then publishes the new snapshot to every subscriber; a mutation
//! that fails does none of these. Ids come from an explicit monotonic
//! counter, so they are unique by construction (the registry's invariant),
//! rather than from a wall clock whose collisions would only be unlikely.

use vstd::prelude::*;

use crate::codec::{doc_chars, encode_document, p_doc, parse_document};
use crate::model::{clone_shortcuts, Shortcut, ShortcutV};

verus! {

/// Why a mutation was refused.
#[derive(Debug, PartialEq, Eq, Structural, Clone, Copy)]
pub enum RegistryError {
    /// No entry carries the requested id.
    NotFound,
}

/// How many snapshots may wait in one subscriber's queue before the
/// subscriber is dropped rather than the publisher blocked.
pub const SUBSCRIBER_CAPACITY: usize = 16;

/// One best-effort reader of registry snapshots: a bounded queue of
/// snapshots not yet read, and whether the reader still receives new ones.
pub struct Subscriber {
    queue: Vec<Vec<Shortcut>>,
    live: bool,
}

/// The mathematical value of a [`Subscriber`].
pub struct SubscriberV {
    pub queue: Seq<Seq<ShortcutV>>,
    pub live: bool,
}

impl View for Subscriber {
    type V = SubscriberV;

    closed spec fn view(&self) -> SubscriberV {
        SubscriberV { queue: self.queue.deep_view(), live: self.live }
    }
}

impl DeepView for Subscriber {
    type V = SubscriberV;

    open spec fn deep_view(&self) -> SubscriberV {
        self.view()
    }
}

pub struct Registry {
    shortcuts: Vec<Shortcut>,
    next_id: u64,
    subs: Vec<Subscriber>,
}

/// No two entries carry the same id.
pub open spec fn unique_ids(l: Seq<ShortcutV>) -> bool {
    forall|a: int, b: int| 0 <= a < b < l.len() ==> l[a].id != l[b].id
}

/// A list a registry can hold: ids unique, and small enough that a fresh
/// one can still be minted after the largest.
pub open spec fn ids_ok(l: Seq<ShortcutV>) -> bool {
    unique_ids(l) && forall|a: int| 0 <= a < l.len() ==> (#[trigger] l[a].id) < u64::MAX
}

/// Some entry carries this id.
pub open spec fn has_id(l: Seq<ShortcutV>, id: u64) -> bool {
    exists|i: int| 0 <= i < l.len() && l[i].id == id
}

impl Registry {
    /// The ordered shortcut list.
    pub closed spec fn list_view(&self) -> Seq<ShortcutV> {
        self.shortcuts.deep_view()
    }

    /// The id the next added shortcut will receive.
    pub closed spec fn next_id_spec(&self) -> u64 {
        self.next_id
    }

    /// The subscribers, in subscription order.
    pub closed spec fn subs_view(&self) -> Seq<SubscriberV> {
        self.subs.deep_view()
    }

    /// The registry's invariant: ids are unique and below the counter, so
    /// the counter's next value is fresh.
    pub open spec fn wf(&self) -> bool {
        &&& unique_ids(self.list_view())
        &&& forall|a: int|
            0 <= a < self.list_view().len() ==> (#[trigger] self.list_view()[a].id)
                < self.next_id_spec()
    }

    /// A registry with no shortcuts and no subscribers.
    pub fn empty() -> (r: Registry)
        ensures
            r.wf(),
            r.list_view() == Seq::<ShortcutV>::empty(),
            r.subs_view() == Seq::<SubscriberV>::empty(),
            r.next_id_spec() == 1,
    {
        let r = Registry { shortcuts: Vec::new(), next_id: 1, subs: Vec::new() };
        proof {
            assert(r.list_view() =~= Seq::<ShortcutV>::empty());
            assert(r.subs_view() =~= Seq::<SubscriberV>::empty());
        }
        r
    }

    /// Whether the id counter is spent, so that no further shortcut can
    /// receive a fresh id. Callers test this before [`Registry::add`].
    pub fn at_id_capacity(&self) -> (r: bool)
        ensures
            r == (self.next_id_spec() == u64::MAX),
    {
        self.next_id == u64::MAX
    }

    /// The current list in its persisted form.
    pub fn document(&self) -> (r: String)
        ensures
            r@ == doc_chars(self.list_view()),
    {
        encode_document(&self.shortcuts)
    }

    /// A snapshot: a deep copy of the current ordered list.
    pub fn list(&self) -> (r: Vec<Shortcut>)
        ensures
            r.deep_view() == self.list_view(),
    {
        clone_shortcuts(&self.shortcuts)
    }

    /// Builds the registry from the persisted document, if any. A missing
    /// document, one that does not parse, or one whose entries break the
    /// id invariant all give the empty list; construction never fails.
    pub fn load(doc: Option<&str>) -> (r: Registry)
        ensures
            r.wf(),
            r.subs_view() == Seq::<SubscriberV>::empty(),
            r.list_view() == match doc {
                Some(d) => match p_doc(d@) {
                    Some(es) => if ids_ok(es) {
                        es
                    } else {
                        Seq::<ShortcutV>::empty()
                    },
                    None => Seq::<ShortcutV>::empty(),
                },
                None => Seq::<ShortcutV>::empty(),
            },
    {
        match doc {
            None => Registry::empty(),
            Some(d) => match parse_document(d) {
                None => Registry::empty(),
                Some(list) => {
                    if !ids_acceptable(&list) {
                        return Registry::empty();
                    }
                    let next = max_id(&list) + 1;
                    let r = Registry { shortcuts: list, next_id: next, subs: Vec::new() };
                    proof {
                        assert(r.subs_view() =~= Seq::<SubscriberV>::empty());
                    }
                    r
                },
            },
        }
    }
}

/// What one publish does to one subscriber: a live subscriber with room
/// gets the snapshot appended; a live subscriber whose queue is full is
/// dropped from future delivery; a dropped subscriber stays as it is.
pub open spec fn delivered(pre: SubscriberV, snap: Seq<ShortcutV>) -> SubscriberV {
    if pre.live && pre.queue.len() < SUBSCRIBER_CAPACITY {
        SubscriberV { queue: pre.queue.push(snap), live: true }
    } else if pre.live {
        SubscriberV { queue: pre.queue, live: false }
    } else {
        pre
    }
}

/// What one publish does to the whole subscriber list: every subscriber is
/// handled independently, and the publish itself never fails.
pub open spec fn published(
    pre: Seq<SubscriberV>,
    post: Seq<SubscriberV>,
    snap: Seq<ShortcutV>,
) -> bool {
    &&& post.len() == pre.len()
    &&& forall|i: int| 0 <= i < pre.len() ==> #[trigger] post[i] == delivered(pre[i], snap)
}

impl Registry {
    /// Sends the current snapshot to every subscriber, best effort.
    fn publish(&mut self)
        ensures
            final(self).list_view() == old(self).list_view(),
            final(self).next_id_spec() == old(self).next_id_spec(),
            published(old(self).subs_view(), final(self).subs_view(), old(self).list_view()),
    {
        let n = self.subs.len();
        let mut k: usize = 0;
        while k < n
            invariant
                n == self.subs@.len(),
                self.subs@.len() == old(self).subs_view().len(),
                k <= n,
                self.shortcuts == old(self).shortcuts,
                self.next_id == old(self).next_id,
                forall|i: int|
                    0 <= i < k ==> #[trigger] self.subs.deep_view()[i] == delivered(
                        old(self).subs_view()[i],
                        old(self).list_view(),
                    ),
                forall|i: int|
                    k <= i < n ==> #[trigger] self.subs.deep_view()[i] == old(self).subs_view()[i],
            decreases n - k,
        {
            let ghost prevd = self.subs.deep_view();
            let ghost prev_vec = self.subs@;
            let live = self.subs[k].live;
            if live {
                let has_room = self.subs[k].queue.len() < SUBSCRIBER_CAPACITY;
                if has_room {
                    let snap = clone_shortcuts(&self.shortcuts);
                    let ghost snapv = snap.deep_view();
                    let sub = &mut self.subs[k];
                    let ghost pre_sub = *sub;
                    sub.queue.push(snap);
                    proof {
                        assert(snapv == old(self).list_view());
                        assert(sub.queue.deep_view() =~= pre_sub.queue.deep_view().push(snapv));
                        assert(sub@ == delivered(pre_sub@, old(self).list_view()));
                    }
                } else {
                    let sub = &mut self.subs[k];
                    let ghost pre_sub = *sub;
                    sub.live = false;
                    proof {
                        assert(pre_sub@.queue.len() >= SUBSCRIBER_CAPACITY);
                        assert(sub@ == delivered(pre_sub@, old(self).list_view()));
                    }
                }
                proof {
                    assert(self.subs@ == prev_vec.update(
                        k as int,
                        self.subs@[k as int],
                    ));
                    assert(self.subs@[k as int]@ == delivered(
                        prevd[k as int],
                        old(self).list_view(),
                    ));
                    assert forall|i: int| 0 <= i < n && i != k implies #[trigger] self
                        .subs.deep_view()[i] == prevd[i] by {
                        assert(self.subs@[i] == prev_vec[i]);
                    }
                    assert(self.subs.deep_view()[k as int] == delivered(
                        prevd[k as int],
                        old(self).list_view(),
                    ));
                }
            } else {
                proof {
                    assert(self.subs.deep_view()[k as int] == delivered(
                        prevd[k as int],
                        old(self).list_view(),
                    ));
                }
            }
            k += 1;
        }
    }

    /// Appends a new shortcut under a fresh id, then yields the document
    /// to persist and publishes the new snapshot.
    pub fn add(&mut self, name: String, sequence: Vec<String>) -> (r: (u64, String))
        requires
            old(self).wf(),
            old(self).next_id_spec() < u64::MAX,
        ensures
            final(self).wf(),
            r.0 == old(self).next_id_spec(),
            !has_id(old(self).list_view(), r.0),
            final(self).list_view() == old(self).list_view().push(
                ShortcutV { id: r.0, name: name@, sequence: sequence.deep_view() },
            ),
            final(self).next_id_spec() == old(self).next_id_spec() + 1,
            r.1@ == doc_chars(final(self).list_view()),
            published(old(self).subs_view(), final(self).subs_view(), final(self).list_view()),
    {
        let id = self.next_id;
        self.next_id = id + 1;
        let entry = Shortcut { id, name, sequence };
        let ghost entry_v = entry@;
        self.shortcuts.push(entry);
        proof {
            assert(self.list_view() =~= old(self).list_view().push(entry_v));
            assert forall|a: int| 0 <= a < self.list_view().len() implies (
            #[trigger] self.list_view()[a].id) < self.next_id_spec() by {
                if a < old(self).list_view().len() {
                    assert(self.list_view()[a] == old(self).list_view()[a]);
                }
            }
            assert(unique_ids(self.list_view()));
        }
        let doc = encode_document(&self.shortcuts);
        self.publish();
        (id, doc)
    }

    /// Replaces the name and sequence of the entry with this id; its id and
    /// position are kept. On an unknown id nothing happens at all: no
    /// mutation, no document, no publish.
    pub fn update(&mut self, id: u64, name: String, sequence: Vec<String>) -> (r: Result<
        String,
        RegistryError,
    >)
        requires
            old(self).wf(),
        ensures
            final(self).wf(),
            match r {
                Ok(doc) => {
                    &&& has_id(old(self).list_view(), id)
                    &&& final(self).list_view().len() == old(self).list_view().len()
                    &&& forall|j: int|
                        0 <= j < old(self).list_view().len()
                            ==> #[trigger] final(self).list_view()[j]
                            == (if old(self).list_view()[j].id == id {
                            ShortcutV { id, name: name@, sequence: sequence.deep_view() }
                        } else {
                            old(self).list_view()[j]
                        })
                    &&& final(self).next_id_spec() == old(self).next_id_spec()
                    &&& doc@ == doc_chars(final(self).list_view())
                    &&& published(
                        old(self).subs_view(),
                        final(self).subs_view(),
                        final(self).list_view(),
                    )
                },
                Err(e) => {
                    &&& e == RegistryError::NotFound
                    &&& !has_id(old(self).list_view(), id)
                    &&& *final(self) == *old(self)
                },
            },
    {
        let pos = match find_pos(&self.shortcuts, id) {
            None => {
                return Err(RegistryError::NotFound);
            },
            Some(p) => p,
        };
        let slot = &mut self.shortcuts[pos];
        slot.name = name;
        slot.sequence = sequence;
        proof {
            assert forall|j: int| 0 <= j < old(self).list_view().len() implies #[trigger] self
                .list_view()[j] == (if old(self).list_view()[j].id == id {
                ShortcutV { id, name: name@, sequence: sequence.deep_view() }
            } else {
                old(self).list_view()[j]
            }) by {
                if j != pos && old(self).list_view()[j].id == id {
                    assert(old(self).list_view()[pos as int].id == id);
                    assert(false);
                }
            }
            assert forall|a: int, b: int|
                0 <= a < b < self.list_view().len() implies self.list_view()[a].id != self
                .list_view()[b].id by {
                assert(self.list_view()[a].id == old(self).list_view()[a].id);
                assert(self.list_view()[b].id == old(self).list_view()[b].id);
            }
            assert forall|a: int| 0 <= a < self.list_view().len() implies (
            #[trigger] self.list_view()[a].id) < self.next_id_spec() by {
                assert(self.list_view()[a].id == old(self).list_view()[a].id);
            }
        }
        let doc = encode_document(&self.shortcuts);
        self.publish();
        Ok(doc)
    }

    /// Removes the entry with this id. On an unknown id nothing happens at
    /// all: no mutation, no document, no publish.
    pub fn delete(&mut self, id: u64) -> (r: Result<String, RegistryError>)
        requires
            old(self).wf(),
        ensures
            final(self).wf(),
            match r {
                Ok(doc) => {
                    &&& has_id(old(self).list_view(), id)
                    &&& exists|i: int|
                        0 <= i < old(self).list_view().len() && (#[trigger] old(
                            self,
                        ).list_view()[i].id) == id && final(self).list_view() == old(
                            self,
                        ).list_view().remove(i)
                    &&& final(self).next_id_spec() == old(self).next_id_spec()
                    &&& doc@ == doc_chars(final(self).list_view())
                    &&& published(
                        old(self).subs_view(),
                        final(self).subs_view(),
                        final(self).list_view(),
                    )
                },
                Err(e) => {
                    &&& e == RegistryError::NotFound
                    &&& !has_id(old(self).list_view(), id)
                    &&& *final(self) == *old(self)
                },
            },
    {
        let pos = match find_pos(&self.shortcuts, id) {
            None => {
                return Err(RegistryError::NotFound);
            },
            Some(p) => p,
        };
        self.shortcuts.remove(pos);
        proof {
            assert(self.list_view() =~= old(self).list_view().remove(pos as int));
            assert(old(self).list_view()[pos as int].id == id);
            assert forall|a: int, b: int|
                0 <= a < b < self.list_view().len() implies self.list_view()[a].id != self
                .list_view()[b].id by {
                assert(self.list_view()[a] == if a < pos {
                    old(self).list_view()[a]
                } else {
                    old(self).list_view()[a + 1]
                });
                assert(self.list_view()[b] == if b < pos {
                    old(self).list_view()[b]
                } else {
                    old(self).list_view()[b + 1]
                });
            }
            assert forall|a: int| 0 <= a < self.list_view().len() implies (
            #[trigger] self.list_view()[a].id) < self.next_id_spec() by {
                assert(self.list_view()[a] == if a < pos {
                    old(self).list_view()[a]
                } else {
                    old(self).list_view()[a + 1]
                });
            }
        }
        let doc = encode_document(&self.shortcuts);
        self.publish();
        Ok(doc)
    }

    /// Registers a new reader. It receives every snapshot published after
    /// this call, none from before.
    pub fn subscribe(&mut self) -> (r: usize)
        ensures
            final(self).list_view() == old(self).list_view(),
            final(self).next_id_spec() == old(self).next_id_spec(),
            final(self).subs_view() == old(self).subs_view().push(
                SubscriberV { queue: Seq::empty(), live: true },
            ),
            r == old(self).subs_view().len(),
    {
        let r = self.subs.len();
        let fresh = Subscriber { queue: Vec::new(), live: true };
        proof {
            assert(fresh@.queue =~= Seq::<Seq<ShortcutV>>::empty());
        }
        self.subs.push(fresh);
        proof {
            assert(self.subs_view() =~= old(self).subs_view().push(
                SubscriberV { queue: Seq::empty(), live: true },
            ));
        }
        r
    }

    /// Takes the oldest unread snapshot of this reader, if any. Snapshots
    /// come out in the order they were published.
    pub fn read_next(&mut self, sub: usize) -> (r: Option<Vec<Shortcut>>)
        ensures
            final(self).list_view() == old(self).list_view(),
            final(self).next_id_spec() == old(self).next_id_spec(),
            match r {
                Some(snap) => {
                    &&& sub < old(self).subs_view().len()
                    &&& old(self).subs_view()[sub as int].queue.len() > 0
                    &&& snap.deep_view() == old(self).subs_view()[sub as int].queue[0]
                    &&& final(self).subs_view() == old(self).subs_view().update(
                        sub as int,
                        SubscriberV {
                            queue: old(self).subs_view()[sub as int].queue.drop_first(),
                            live: old(self).subs_view()[sub as int].live,
                        },
                    )
                },
                None => {
                    &&& (sub >= old(self).subs_view().len() || old(
                        self,
                    ).subs_view()[sub as int].queue.len() == 0)
                    &&& *final(self) == *old(self)
                },
            },
    {
        if sub >= self.subs.len() {
            return None;
        }
        if self.subs[sub].queue.len() == 0 {
            return None;
        }
        let s = &mut self.subs[sub];
        let ghost pre_sub = *s;
        let snap = s.queue.remove(0);
        proof {
            assert(s.queue.deep_view() =~= pre_sub.queue.deep_view().drop_first());
            assert(snap.deep_view() == pre_sub.queue.deep_view()[0]);
        }
        proof {
            assert(self.subs_view() =~= old(self).subs_view().update(
                sub as int,
                SubscriberV {
                    queue: old(self).subs_view()[sub as int].queue.drop_first(),
                    live: old(self).subs_view()[sub as int].live,
                },
            ));
        }
        Some(snap)
    }
}

// ---------------------------------------------------------------------------
// Laws.
// ---------------------------------------------------------------------------

/// Broadcast fan-out: one publish reaches every live subscriber with room,
/// appending the same snapshot to each, and it reaches each of them whatever
/// the state of the others; a full subscriber is dropped from future
/// delivery instead of blocking or failing the publish, and a dropped one
/// is left as it was.
pub proof fn law_broadcast_fanout(
    pre: Seq<SubscriberV>,
    post: Seq<SubscriberV>,
    snap: Seq<ShortcutV>,
    i: int,
)
    requires
        published(pre, post, snap),
        0 <= i < pre.len(),
    ensures
        post.len() == pre.len(),
        pre[i].live && pre[i].queue.len() < SUBSCRIBER_CAPACITY ==> post[i] == (SubscriberV {
            queue: pre[i].queue.push(snap),
            live: true,
        }),
        pre[i].live && pre[i].queue.len() >= SUBSCRIBER_CAPACITY ==> post[i] == (SubscriberV {
            queue: pre[i].queue,
            live: false,
        }),
        !pre[i].live ==> post[i] == pre[i],
{
}

/// Publish order: a reader that subscribed before two publishes holds the
/// two snapshots in its queue in publish order.
pub proof fn law_publish_order(
    s0: Seq<SubscriberV>,
    s1: Seq<SubscriberV>,
    s2: Seq<SubscriberV>,
    a: Seq<ShortcutV>,
    b: Seq<ShortcutV>,
    i: int,
)
    requires
        published(s0, s1, a),
        published(s1, s2, b),
        0 <= i < s0.len(),
        s0[i].live,
        s0[i].queue.len() + 1 < SUBSCRIBER_CAPACITY,
    ensures
        s2[i].live,
        s2[i].queue == s0[i].queue.push(a).push(b),
{
    assert(s1[i] == delivered(s0[i], a));
    assert(s2[i] == delivered(s1[i], b));
}

/// Persist/reload round trip: the document a well-formed registry persists
/// parses back to exactly the list it held, so reloading from storage
/// rebuilds the identical ordered list.
pub proof fn law_persist_reload(r: Registry)
    requires
        r.wf(),
    ensures
        ids_ok(r.list_view()),
        p_doc(doc_chars(r.list_view())) == Some(r.list_view()),
{
    crate::codec::lemma_document_round_trip(r.list_view());
}

/// Finds the position of the entry with this id, if any.
pub(crate) fn find_pos(v: &Vec<Shortcut>, id: u64) -> (r: Option<usize>)
    ensures
        match r {
            Some(p) => p < v.deep_view().len() && v.deep_view()[p as int].id == id,
            None => !has_id(v.deep_view(), id),
        },
{
    let ghost l = v.deep_view();
    let mut i: usize = 0;
    while i < v.len()
        invariant
            l == v.deep_view(),
            i <= l.len(),
            forall|x: int| 0 <= x < i ==> (#[trigger] l[x].id) != id,
        decreases l.len() - i,
    {
        if v[i].id == id {
            proof {
                assert(l[i as int].id == id);
            }
            return Some(i);
        }
        i += 1;
    }
    None
}

/// Whether the list's ids are unique and leave room for a fresh one.
fn ids_acceptable(v: &Vec<Shortcut>) -> (r: bool)
    ensures
        r == ids_ok(v.deep_view()),
{
    let ghost l = v.deep_view();
    let mut a: usize = 0;
    while a < v.len()
        invariant
            l == v.deep_view(),
            a <= l.len(),
            forall|x: int, y: int| 0 <= x < y < a ==> l[x].id != l[y].id,
            forall|x: int| 0 <= x < a ==> (#[trigger] l[x].id) < u64::MAX,
        decreases l.len() - a,
    {
        if v[a].id == u64::MAX {
            proof {
                assert(l[a as int].id == u64::MAX);
            }
            return false;
        }
        let mut b: usize = 0;
        while b < a
            invariant
                l == v.deep_view(),
                a < l.len(),
                b <= a,
                forall|x: int| 0 <= x < b ==> l[x].id != l[a as int].id,
            decreases a - b,
        {
            if v[b].id == v[a].id {
                proof {
                    assert(l[b as int].id == l[a as int].id);
                }
                return false;
            }
            b += 1;
        }
        a += 1;
    }
    true
}

/// The largest id in the list, or zero for an empty list.
fn max_id(v: &Vec<Shortcut>) -> (r: u64)
    ensures
        forall|x: int| 0 <= x < v.deep_view().len() ==> (#[trigger] v.deep_view()[x].id) <= r,
        r == 0 || exists|x: int|
            0 <= x < v.deep_view().len() && (#[trigger] v.deep_view()[x].id) == r,
{
    let ghost l = v.deep_view();
    let mut r: u64 = 0;
    let mut i: usize = 0;
    while i < v.len()
        invariant
            l == v.deep_view(),
            i <= l.len(),
            forall|x: int| 0 <= x < i ==> (#[trigger] l[x].id) <= r,
            r == 0 || exists|x: int| 0 <= x < i && (#[trigger] l[x].id) == r,
        decreases l.len() - i,
    {
        if v[i].id > r {
            r = v[i].id;
            proof {
                assert(l[i as int].id == r);
            }
        }
        i += 1;
    }
    r
}

} // verus!

