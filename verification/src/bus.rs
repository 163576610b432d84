//! Event bus: an in-process multicast channel.  The transport publishes each
//! inbound frame once; every currently registered subscriber receives its
//! own copy, in publish order.  Subscribers register and deregister with the
//! widgets' mount and unmount; a subscriber only sees frames published after
//! it subscribed.  The bus is an explicit value handed to its users, not a
//! global.

use vstd::prelude::*;
use vstd::string::StringExecFns;

verus! {

/// One registered subscriber: its handle and its queue of frames published
/// since it subscribed and not yet consumed.
pub struct Subscriber {
    id: u64,
    queue: Vec<String>,
}

/// Mathematical model of a subscriber.
#[verifier::ext_equal]
pub struct SubscriberV {
    pub id: u64,
    pub queue: Seq<Seq<char>>,
}

impl View for Subscriber {
    type V = SubscriberV;

    closed spec fn view(&self) -> SubscriberV {
        SubscriberV { id: self.id, queue: self.queue@.map_values(|s: String| s@) }
    }
}

/// The multicast bus: the registry of live subscribers.
pub struct EventBus {
    next: u64,
    subs: Vec<Subscriber>,
}

/// Mathematical model of the bus.
#[verifier::ext_equal]
pub struct BusV {
    pub next: u64,
    pub subs: Seq<SubscriberV>,
}

impl View for EventBus {
    type V = BusV;

    closed spec fn view(&self) -> BusV {
        BusV { next: self.next, subs: self.subs@.map_values(|s: Subscriber| s@) }
    }
}

impl BusV {
    /// Well-formedness: handles are distinct, and all below the next fresh one.
    pub open spec fn wf(self) -> bool {
        &&& forall|a: int, b: int| 0 <= a < b < self.subs.len()
            ==> #[trigger] self.subs[a].id != #[trigger] self.subs[b].id
        &&& forall|a: int| 0 <= a < self.subs.len() ==> #[trigger] self.subs[a].id < self.next
    }

    /// Whether some subscriber holds the handle `h`.
    pub open spec fn has_sub(self, h: u64) -> bool {
        exists|a: int| 0 <= a < self.subs.len() && #[trigger] self.subs[a].id == h
    }
}

/// What one publish does to the model: every subscriber's queue gains the
/// frame at the back; registrations are untouched.
pub open spec fn publish_step(v: BusV, frame: Seq<char>) -> BusV {
    BusV {
        next: v.next,
        subs: v.subs.map_values(|s: SubscriberV| SubscriberV { id: s.id, queue: s.queue.push(frame) }),
    }
}

/// The model after a whole sequence of publishes.
pub open spec fn publish_run(v: BusV, frames: Seq<Seq<char>>) -> BusV
    decreases frames.len(),
{
    if frames.len() == 0 {
        v
    } else {
        publish_run(publish_step(v, frames[0]), frames.skip(1))
    }
}

impl EventBus {
    /// A bus with no subscribers.
    pub fn new() -> (r: EventBus)
        ensures
            r@.subs == Seq::<SubscriberV>::empty(),
            r@.wf(),
    {
        let r = EventBus { next: 0, subs: Vec::new() };
        proof {
            assert(r@.subs =~= Seq::<SubscriberV>::empty());
        }
        r
    }

    /// Registers a new subscriber and returns its handle.  The handle is
    /// fresh, and the new subscriber starts with an empty queue: it will
    /// only observe frames published from now on.
    pub fn subscribe(&mut self) -> (h: u64)
        requires
            old(self)@.wf(),
            old(self)@.next < u64::MAX,
        ensures
            final(self)@.wf(),
            !old(self)@.has_sub(h),
            final(self)@.subs == old(self)@.subs.push(
                SubscriberV { id: h, queue: Seq::<Seq<char>>::empty() }),
            final(self)@.next == old(self)@.next + 1,
    {
        let h = self.next;
        self.next = self.next + 1;
        let sub = Subscriber { id: h, queue: Vec::new() };
        proof {
            assert(sub@.queue =~= Seq::<Seq<char>>::empty());
        }
        self.subs.push(sub);
        proof {
            assert(final(self)@.subs =~= old(self)@.subs.push(
                SubscriberV { id: h, queue: Seq::<Seq<char>>::empty() }));
        }
        h
    }

    /// Publishes one frame: every currently registered subscriber receives
    /// it, appended to its queue, in the same relative order for all.
    #[verifier::loop_isolation(false)]
    pub fn publish(&mut self, frame: &str)
        ensures
            final(self)@ == publish_step(old(self)@, frame@),
            old(self)@.wf() ==> final(self)@.wf(),
    {
        let n = self.subs.len();
        let mut i: usize = 0;
        while i < n
            invariant
                n == self.subs@.len(),
                i <= n,
                self@.next == old(self)@.next,
                self@.subs.len() == old(self)@.subs.len(),
                forall|k: int| 0 <= k < i ==> #[trigger] self@.subs[k]
                    == (SubscriberV {
                        id: old(self)@.subs[k].id,
                        queue: old(self)@.subs[k].queue.push(frame@),
                    }),
                forall|k: int| i <= k < n ==> #[trigger] self@.subs[k] == old(self)@.subs[k],
            decreases n - i,
        {
            let ghost pre = self@;
            let ghost prevec = self.subs@;
            self.subs[i].queue.push(String::from_str(frame));
            proof {
                assert(self@.subs[i as int].queue =~= pre.subs[i as int].queue.push(frame@));
                assert(self@.subs[i as int].id == pre.subs[i as int].id);
                assert(pre.subs[i as int] == old(self)@.subs[i as int]);
                assert(self@.subs[i as int] =~= (SubscriberV {
                    id: old(self)@.subs[i as int].id,
                    queue: old(self)@.subs[i as int].queue.push(frame@),
                }));
                assert forall|k: int| 0 <= k <= i implies #[trigger] self@.subs[k]
                    == (SubscriberV {
                        id: old(self)@.subs[k].id,
                        queue: old(self)@.subs[k].queue.push(frame@),
                    }) by {
                    if k < i {
                        assert(self.subs@[k] == prevec[k]);
                        assert(pre.subs[k] == (SubscriberV {
                            id: old(self)@.subs[k].id,
                            queue: old(self)@.subs[k].queue.push(frame@),
                        }));
                    }
                }
                assert forall|k: int| i < k < n implies #[trigger] self@.subs[k]
                    == old(self)@.subs[k] by {
                    assert(self.subs@[k] == prevec[k]);
                    assert(pre.subs[k] == old(self)@.subs[k]);
                }
            }
            i = i + 1;
        }
        proof {
            assert(self@.subs =~= publish_step(old(self)@, frame@).subs);
            assert(self@ =~= publish_step(old(self)@, frame@));
        }
    }

    /// Deregisters the subscriber with handle `h`; a handle that is not
    /// registered (for instance, one already deregistered) leaves the bus
    /// unchanged, so deregistering twice is harmless.
    #[verifier::loop_isolation(false)]
    pub fn unsubscribe(&mut self, h: u64)
        requires
            old(self)@.wf(),
        ensures
            final(self)@.wf(),
            final(self)@.next == old(self)@.next,
            !old(self)@.has_sub(h) ==> final(self)@.subs == old(self)@.subs,
            old(self)@.has_sub(h) ==> (exists|a: int|
                0 <= a < old(self)@.subs.len()
                && #[trigger] old(self)@.subs[a].id == h
                && final(self)@.subs == old(self)@.subs.remove(a)),
    {
        let n = self.subs.len();
        let mut i: usize = 0;
        while i < n
            invariant
                n == self.subs@.len(),
                i <= n,
                self@ == old(self)@,
                forall|k: int| 0 <= k < i ==> #[trigger] self@.subs[k].id != h,
            decreases n - i,
        {
            if self.subs[i].id == h {
                proof {
                    assert(self@.subs[i as int].id == h);
                }
                self.subs.remove(i);
                proof {
                    let pre = old(self)@.subs;
                    assert(self@.subs =~= pre.remove(i as int));
                    pre.remove_ensures(i as int);
                    assert forall|a: int, b: int| 0 <= a < b < self@.subs.len()
                        implies self@.subs[a].id != self@.subs[b].id by {
                        if a < i {
                            assert(self@.subs[a] == pre[a]);
                        } else {
                            assert(self@.subs[a] == pre[a + 1]);
                        }
                        if b < i {
                            assert(self@.subs[b] == pre[b]);
                        } else {
                            assert(self@.subs[b] == pre[b + 1]);
                        }
                    }
                    assert forall|a: int| 0 <= a < self@.subs.len()
                        implies self@.subs[a].id < self@.next by {
                        if a < i {
                            assert(self@.subs[a] == pre[a]);
                        } else {
                            assert(self@.subs[a] == pre[a + 1]);
                        }
                    }
                }
                return ;
            }
            i = i + 1;
        }
    }

    /// Hands out the next frame queued for the subscriber with handle `h`,
    /// if that subscriber exists and has one pending.  Other subscribers'
    /// queues are untouched: consuming a frame here does not consume it for
    /// anyone else.
    #[verifier::loop_isolation(false)]
    pub fn next_frame(&mut self, h: u64) -> (r: Option<String>)
        requires
            old(self)@.wf(),
        ensures
            final(self)@.wf(),
            final(self)@.next == old(self)@.next,
            !old(self)@.has_sub(h) ==> (r is None && final(self)@ == old(self)@),
            old(self)@.has_sub(h) ==> (exists|a: int|
                {
                    &&& 0 <= a < old(self)@.subs.len()
                    &&& #[trigger] old(self)@.subs[a].id == h
                    &&& if old(self)@.subs[a].queue.len() == 0 {
                        r is None && final(self)@ == old(self)@
                    } else {
                        &&& (r matches Some(x) && x@ == old(self)@.subs[a].queue[0])
                        &&& final(self)@.subs == old(self)@.subs.update(a, SubscriberV {
                            id: h,
                            queue: old(self)@.subs[a].queue.skip(1),
                        })
                    }
                }),
    {
        let n = self.subs.len();
        let mut i: usize = 0;
        while i < n
            invariant
                n == self.subs@.len(),
                i <= n,
                self@ == old(self)@,
                forall|k: int| 0 <= k < i ==> #[trigger] self@.subs[k].id != h,
            decreases n - i,
        {
            if self.subs[i].id == h {
                proof {
                    assert(self@.subs[i as int].id == h);
                }
                if self.subs[i].queue.len() == 0 {
                    proof {
                        assert(self@.subs[i as int].queue.len() == 0);
                    }
                    return None;
                }
                let ghost pre = self@;
                let ghost prevec = self.subs@;
                let ghost preq = self.subs@[i as int].queue@;
                let x = self.subs[i].queue.remove(0);
                proof {
                    preq.remove_ensures(0);
                    assert(self@.subs[i as int].queue =~= pre.subs[i as int].queue.skip(1));
                    assert(self@.subs[i as int] =~= (SubscriberV {
                        id: h,
                        queue: pre.subs[i as int].queue.skip(1),
                    }));
                    assert forall|k: int| 0 <= k < n && k != i
                        implies self@.subs[k] == pre.subs[k] by {
                        assert(self.subs@[k] == prevec[k]);
                    }
                    assert(self@.subs =~= pre.subs.update(i as int, SubscriberV {
                        id: h,
                        queue: pre.subs[i as int].queue.skip(1),
                    }));
                    assert(x@ == pre.subs[i as int].queue[0]);
                    assert forall|a: int, b: int| 0 <= a < b < self@.subs.len()
                        implies self@.subs[a].id != self@.subs[b].id by {
                        assert(pre.subs[a].id != pre.subs[b].id);
                    }
                    assert forall|a: int| 0 <= a < self@.subs.len()
                        implies self@.subs[a].id < self@.next by {
                        assert(pre.subs[a].id < pre.next);
                    }
                }
                return Some(x);
            }
            i = i + 1;
        }
        None
    }
}

/// Multicast law: after any sequence of publishes, every subscriber that
/// was registered before them has observed exactly those frames, appended
/// to its queue in publish order.  Two subscribers thus observe the same
/// frames in the same order, each in its own queue, and what one consumes
/// stays queued for the other.
pub proof fn lemma_multicast(v: BusV, frames: Seq<Seq<char>>, i: int, j: int)
    requires
        0 <= i < v.subs.len(),
        0 <= j < v.subs.len(),
    ensures
        publish_run(v, frames).subs.len() == v.subs.len(),
        publish_run(v, frames).subs[i].id == v.subs[i].id,
        publish_run(v, frames).subs[j].id == v.subs[j].id,
        publish_run(v, frames).subs[i].queue == v.subs[i].queue + frames,
        publish_run(v, frames).subs[j].queue == v.subs[j].queue + frames,
{
    lemma_multicast_one(v, frames, i);
    lemma_multicast_one(v, frames, j);
}

proof fn lemma_multicast_one(v: BusV, frames: Seq<Seq<char>>, i: int)
    requires
        0 <= i < v.subs.len(),
    ensures
        publish_run(v, frames).subs.len() == v.subs.len(),
        publish_run(v, frames).subs[i].id == v.subs[i].id,
        publish_run(v, frames).subs[i].queue == v.subs[i].queue + frames,
    decreases frames.len(),
{
    if frames.len() == 0 {
        assert(v.subs[i].queue + frames =~= v.subs[i].queue);
    } else {
        let v1 = publish_step(v, frames[0]);
        lemma_multicast_one(v1, frames.skip(1), i);
        assert(v1.subs[i].queue == v.subs[i].queue.push(frames[0]));
        assert(v.subs[i].queue.push(frames[0]) + frames.skip(1) =~= v.subs[i].queue + frames);
    }
}

} // verus!
