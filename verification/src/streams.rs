use vstd::prelude::*;

use vstd::hash_map::HashMapWithView;

use crate::frame::{frame_valid, Frame, StreamIdBlockedFrame};
use crate::varint::VARINT_MAX;

verus! {

/// Which endpoint of the connection a registry belongs to.
#[derive(Clone, Copy, Debug, PartialEq, Eq, Structural)]
pub enum Side {
    Client,
    Server,
}

/// Direction of a stream: both ways, or from its initiator only.
#[derive(Clone, Copy, Debug, PartialEq, Eq, Structural)]
pub enum Dir {
    Bidi,
    Uni,
}

impl Side {
    /// This side's contribution to a stream-type category index.
    pub open spec fn bit_spec(self) -> u64 {
        match self {
            Side::Client => 0,
            Side::Server => 1,
        }
    }

    /// This side's contribution to a stream-type category index.
    pub fn to_bit(&self) -> (r: u64)
        ensures
            r == self.bit_spec(),
    {
        match self {
            Side::Client => 0,
            Side::Server => 1,
        }
    }
}

impl Dir {
    /// This direction's contribution to a stream-type category index.
    pub open spec fn bit_spec(self) -> u64 {
        match self {
            Dir::Bidi => 0,
            Dir::Uni => 2,
        }
    }

    /// This direction's contribution to a stream-type category index.
    pub fn to_bit(&self) -> (r: u64)
        ensures
            r == self.bit_spec(),
    {
        match self {
            Dir::Bidi => 0,
            Dir::Uni => 2,
        }
    }
}

/// Per-stream bookkeeping: the caller-owned progress marker, and the opaque
/// data chunks queued for sending and received so far.
pub struct Stream {
    pub offset: u64,
    pub queued: Vec<Vec<u8>>,
    pub received: Vec<Vec<u8>>,
}

/// Mathematical image of a `Stream`.
#[verifier::ext_equal]
pub struct StreamV {
    pub offset: u64,
    pub queued: Seq<Seq<u8>>,
    pub received: Seq<Seq<u8>>,
}

impl View for Stream {
    type V = StreamV;

    open spec fn view(&self) -> StreamV {
        StreamV {
            offset: self.offset,
            queued: self.queued.deep_view(),
            received: self.received.deep_view(),
        }
    }
}

impl Stream {
    /// A fresh stream: offset 0, no queued and no received chunks.
    pub fn new() -> (r: Stream)
        ensures
            r@ == (StreamV {
                offset: 0,
                queued: Seq::<Seq<u8>>::empty(),
                received: Seq::<Seq<u8>>::empty(),
            }),
    {
        let r = Stream { offset: 0, queued: Vec::new(), received: Vec::new() };
        proof {
            assert(r@ =~= (StreamV {
                offset: 0,
                queued: Seq::<Seq<u8>>::empty(),
                received: Seq::<Seq<u8>>::empty(),
            }));
        }
        r
    }
}

/// One stream-type category: the next identifier this side may allocate
/// (`None` when the side may not, or may no longer, initiate the category),
/// the highest identifier the peer has authorized, and the identifiers of
/// pending local stream requests waiting for a higher limit.
pub struct OpenStreams {
    pub next: Option<u64>,
    pub max: u64,
    pub updates: Vec<u64>,
}

impl OpenStreams {
    /// A category this side may not initiate, with no peer authorization yet.
    pub fn new() -> (r: OpenStreams)
        ensures
            r.next is None,
            r.max == 0,
            r.updates@ == Seq::<u64>::empty(),
    {
        let r = OpenStreams { next: None, max: 0, updates: Vec::new() };
        proof {
            assert(r.updates@ =~= Seq::<u64>::empty());
        }
        r
    }
}

/// Outcome of asking to open a specific locally-initiated stream identifier.
#[derive(Clone, Copy, Debug, PartialEq, Eq, Structural)]
pub enum StreamRequest {
    /// The identifier is within the peer's advertised limit; the request is
    /// complete.
    Ready,
    /// The identifier exceeds the limit: a waiter was recorded, exactly one
    /// `StreamIdBlocked` frame was queued, and `wake` says whether a
    /// registered notification target must now be woken.
    Blocked { wake: bool },
}

/// A handle to one stream: its identifier. Every operation takes the owning
/// registry explicitly.
#[derive(Clone, Copy, Debug, PartialEq, Eq, Structural)]
pub struct StreamRef {
    pub id: u64,
}

/// The stream registry of one connection: allocates identifiers for
/// locally-initiated streams, admits peer-initiated identifiers against the
/// advertised limits, stores per-stream state, and queues the control frames
/// it generates on its own initiative.
pub struct Streams {
    pub side: Side,
    pub task_set: bool,
    pub queue: Vec<Frame>,
    pub streams: HashMapWithView<u64, Stream>,
    pub open0: OpenStreams,
    pub open1: OpenStreams,
    pub open2: OpenStreams,
    pub open3: OpenStreams,
}


/// The four category slots, named by index.
proof fn lemma_cat_fields(s: Streams)
    ensures
        s.cat(0) == s.open0,
        s.cat(1) == s.open1,
        s.cat(2) == s.open2,
        s.cat(3) == s.open3,
{
}

impl Streams {
    /// The category slot with index `i`.
    pub open spec fn cat(self, i: int) -> OpenStreams {
        if i == 0 {
            self.open0
        } else if i == 1 {
            self.open1
        } else if i == 2 {
            self.open2
        } else {
            self.open3
        }
    }

    /// The per-stream states, as a map from identifier to mathematical
    /// image.
    pub open spec fn streams_view(self) -> Map<u64, StreamV> {
        self.streams@.map_values(|s: Stream| s@)
    }

    /// Every category limit and allocation pointer fits the 62-bit
    /// identifier range, and every queued frame fits the wire format.
    pub open spec fn wf(self) -> bool {
        &&& self.open0.max < VARINT_MAX
        &&& self.open1.max < VARINT_MAX
        &&& self.open2.max < VARINT_MAX
        &&& self.open3.max < VARINT_MAX
        &&& (self.open0.next matches Some(n) ==> n < VARINT_MAX)
        &&& (self.open1.next matches Some(n) ==> n < VARINT_MAX)
        &&& (self.open2.next matches Some(n) ==> n < VARINT_MAX)
        &&& (self.open3.next matches Some(n) ==> n < VARINT_MAX)
        &&& forall|i: int|
            0 <= i < self.queue@.len() ==> frame_valid((#[trigger] self.queue@[i])@)
    }

    /// A fresh registry for `side`. Only a client may initiate category 0,
    /// client-initiated bidirectional; every other category starts
    /// uninitiable, and every peer limit starts at 0.
    pub fn new(side: Side) -> (r: Streams)
        ensures
            r.wf(),
            r.side == side,
            !r.task_set,
            r.queue@ == Seq::<Frame>::empty(),
            r.streams_view() == Map::<u64, StreamV>::empty(),
            r.cat(0).next == (if side is Client {
                Some(0u64)
            } else {
                None::<u64>
            }),
            r.cat(1).next is None,
            r.cat(2).next is None,
            r.cat(3).next is None,
            forall|i: int|
                0 <= i < 4 ==> (#[trigger] r.cat(i)).max == 0 && r.cat(i).updates@ == Seq::<
                    u64,
                >::empty(),
    {
        let mut open0 = OpenStreams::new();
        let open1 = OpenStreams::new();
        let open2 = OpenStreams::new();
        let open3 = OpenStreams::new();
        if let Side::Client = side {
            open0.next = Some(0);
        }
        let r = Streams {
            side,
            task_set: false,
            queue: Vec::new(),
            streams: HashMapWithView::new(),
            open0,
            open1,
            open2,
            open3,
        };
        proof {
            assert(r.queue@ =~= Seq::<Frame>::empty());
            assert(r.streams_view() =~= Map::<u64, StreamV>::empty());
        }
        r
    }

    /// The category slot with index `i`, read back.
    fn get_next(&self, i: usize) -> (r: Option<u64>)
        requires
            i < 4,
        ensures
            r == self.cat(i as int).next,
    {
        match i {
            0 => self.open0.next,
            1 => self.open1.next,
            2 => self.open2.next,
            _ => self.open3.next,
        }
    }

    /// The peer-advertised limit of category `i`.
    fn get_max(&self, i: usize) -> (r: u64)
        requires
            i < 4,
        ensures
            r == self.cat(i as int).max,
    {
        match i {
            0 => self.open0.max,
            1 => self.open1.max,
            2 => self.open2.max,
            _ => self.open3.max,
        }
    }

    /// Replace the allocation pointer of category `i`.
    fn set_next(&mut self, i: usize, v: Option<u64>)
        requires
            i < 4,
        ensures
            final(self).cat(i as int).next == v,
            final(self).cat(i as int).max == old(self).cat(i as int).max,
            final(self).cat(i as int).updates == old(self).cat(i as int).updates,
            forall|j: int|
                0 <= j < 4 && j != i ==> #[trigger] final(self).cat(j) == old(self).cat(j),
            final(self).side == old(self).side,
            final(self).task_set == old(self).task_set,
            final(self).queue == old(self).queue,
            final(self).streams == old(self).streams,
    {
        match i {
            0 => self.open0.next = v,
            1 => self.open1.next = v,
            2 => self.open2.next = v,
            _ => self.open3.next = v,
        }
    }

    /// Replace the peer-advertised limit of category `i`.
    fn set_max(&mut self, i: usize, v: u64)
        requires
            i < 4,
        ensures
            final(self).cat(i as int).max == v,
            final(self).cat(i as int).next == old(self).cat(i as int).next,
            final(self).cat(i as int).updates == old(self).cat(i as int).updates,
            forall|j: int|
                0 <= j < 4 && j != i ==> #[trigger] final(self).cat(j) == old(self).cat(j),
            final(self).side == old(self).side,
            final(self).task_set == old(self).task_set,
            final(self).queue == old(self).queue,
            final(self).streams == old(self).streams,
    {
        match i {
            0 => self.open0.max = v,
            1 => self.open1.max = v,
            2 => self.open2.max = v,
            _ => self.open3.max = v,
        }
    }

    /// Record `id` as a pending waiter of category `i`.
    fn push_update(&mut self, i: usize, id: u64)
        requires
            i < 4,
        ensures
            final(self).cat(i as int).updates@ == old(self).cat(i as int).updates@.push(id),
            final(self).cat(i as int).next == old(self).cat(i as int).next,
            final(self).cat(i as int).max == old(self).cat(i as int).max,
            forall|j: int|
                0 <= j < 4 && j != i ==> #[trigger] final(self).cat(j) == old(self).cat(j),
            final(self).side == old(self).side,
            final(self).task_set == old(self).task_set,
            final(self).queue == old(self).queue,
            final(self).streams == old(self).streams,
    {
        match i {
            0 => self.open0.updates.push(id),
            1 => self.open1.updates.push(id),
            2 => self.open2.updates.push(id),
            _ => self.open3.updates.push(id),
        }
    }

    /// Record that a notification target has been registered with the owner
    /// of the registry; operations that queue outbound work will then ask
    /// their caller to wake it.
    pub fn set_task(&mut self)
        ensures
            final(self).task_set,
            final(self).side == old(self).side,
            final(self).queue == old(self).queue,
            final(self).streams == old(self).streams,
            forall|j: int| 0 <= j < 4 ==> #[trigger] final(self).cat(j) == old(self).cat(j),
    {
        self.task_set = true;
    }

    /// Pop the oldest self-generated outbound control frame, if any. Every
    /// frame handed out fits the wire format.
    pub fn queued(&mut self) -> (r: Option<Frame>)
        requires
            old(self).wf(),
        ensures
            final(self).wf(),
            final(self).side == old(self).side,
            final(self).task_set == old(self).task_set,
            final(self).streams == old(self).streams,
            forall|j: int| 0 <= j < 4 ==> #[trigger] final(self).cat(j) == old(self).cat(j),
            match r {
                Some(f) => {
                    &&& old(self).queue@.len() > 0
                    &&& f == old(self).queue@[0]
                    &&& final(self).queue@ == old(self).queue@.skip(1)
                    &&& frame_valid(f@)
                },
                None => old(self).queue@.len() == 0 && final(self).queue == old(self).queue,
            },
    {
        if self.queue.len() > 0 {
            let f = self.queue.remove(0);
            proof {
                assert(self.queue@ =~= old(self).queue@.skip(1));
                assert(self.wf());
            }
            Some(f)
        } else {
            None
        }
    }

    /// Allocate the next locally-initiated stream in `dir`'s category, if
    /// the category is initiable and not exhausted. The allocation pointer
    /// advances by 4 while the advanced value still does not exceed the
    /// peer's limit,
    /// else the category is marked exhausted. A category whose pointer is
    /// absent yields nothing and the registry is unchanged.
    pub fn init_send(&mut self, dir: Dir) -> (r: Option<StreamRef>)
        requires
            old(self).wf(),
        ensures
            final(self).wf(),
            ({
                let ci = (old(self).side.bit_spec() + dir.bit_spec()) as int;
                match old(self).cat(ci).next {
                    None => r is None && *final(self) == *old(self),
                    Some(id) => {
                        &&& r == Some(StreamRef { id })
                        &&& final(self).streams_view() == old(self).streams_view().insert(
                            id,
                            (StreamV {
                                offset: 0,
                                queued: Seq::<Seq<u8>>::empty(),
                                received: Seq::<Seq<u8>>::empty(),
                            }),
                        )
                        &&& final(self).cat(ci).next == (if id + 4 <= old(self).cat(ci).max {
                            Some((id + 4) as u64)
                        } else {
                            None::<u64>
                        })
                        &&& final(self).cat(ci).max == old(self).cat(ci).max
                        &&& final(self).cat(ci).updates == old(self).cat(ci).updates
                        &&& forall|j: int|
                            0 <= j < 4 && j != ci ==> #[trigger] final(self).cat(j) == old(
                                self,
                            ).cat(j)
                        &&& final(self).queue == old(self).queue
                        &&& final(self).side == old(self).side
                        &&& final(self).task_set == old(self).task_set
                    },
                }
            }),
    {
        let stype = (self.side.to_bit() + dir.to_bit()) as usize;
        let next = self.get_next(stype);
        match next {
            None => None,
            Some(id) => {
                let max = self.get_max(stype);
                self.streams.insert(id, Stream::new());
                if id + 4 <= max {
                    self.set_next(stype, Some(id + 4));
                } else {
                    self.set_next(stype, None);
                }
                proof {
                    assert(self.streams_view() =~= old(self).streams_view().insert(
                        id,
                        (StreamV {
                            offset: 0,
                            queued: Seq::<Seq<u8>>::empty(),
                            received: Seq::<Seq<u8>>::empty(),
                        }),
                    ));
                    lemma_cat_fields(*self);
                    lemma_cat_fields(*old(self));
                    assert(self.wf());
                }
                Some(StreamRef { id })
            },
        }
    }

    /// Record the peer's newly advertised maximum identifier for the
    /// category of `id`. Pending waiters are not resolved here: the owner of
    /// the registry decides separately what to do with requests the new
    /// limit now covers.
    pub fn update_max_id(&mut self, id: u64)
        requires
            old(self).wf(),
            id < VARINT_MAX,
        ensures
            final(self).wf(),
            final(self).cat((id % 4) as int).max == id,
            final(self).cat((id % 4) as int).next == old(self).cat((id % 4) as int).next,
            final(self).cat((id % 4) as int).updates == old(self).cat((id % 4) as int).updates,
            forall|j: int|
                0 <= j < 4 && j != (id % 4) as int ==> #[trigger] final(self).cat(j) == old(
                    self,
                ).cat(j),
            final(self).side == old(self).side,
            final(self).task_set == old(self).task_set,
            final(self).queue == old(self).queue,
            final(self).streams == old(self).streams,
    {
        let stype = (id % 4) as usize;
        self.set_max(stype, id);
        proof {
            lemma_cat_fields(*self);
            lemma_cat_fields(*old(self));
            assert(self.wf());
        }
    }

    /// Look up or admit the peer-initiated stream `id`. An existing entry is
    /// returned as a handle. A new identifier is admitted only when it does
    /// not exceed the advertised limit of its category; beyond the limit
    /// nothing is created, and the caller must treat the excess as a
    /// protocol violation.
    pub fn received(&mut self, id: u64) -> (r: Option<StreamRef>)
        requires
            old(self).wf(),
        ensures
            final(self).wf(),
            final(self).side == old(self).side,
            final(self).task_set == old(self).task_set,
            final(self).queue == old(self).queue,
            forall|j: int| 0 <= j < 4 ==> #[trigger] final(self).cat(j) == old(self).cat(j),
            if old(self).streams_view().contains_key(id) {
                r == Some(StreamRef { id }) && final(self).streams == old(self).streams
            } else if id > old(self).cat((id % 4) as int).max {
                r is None && final(self).streams == old(self).streams
            } else {
                r == Some(StreamRef { id }) && final(self).streams_view() == old(
                    self,
                ).streams_view().insert(
                    id,
                    (StreamV {
                        offset: 0,
                        queued: Seq::<Seq<u8>>::empty(),
                        received: Seq::<Seq<u8>>::empty(),
                    }),
                )
            },
    {
        proof {
            assert(old(self).streams_view().dom() =~= old(self).streams@.dom());
        }
        if self.streams.contains_key(&id) {
            Some(StreamRef { id })
        } else {
            let stype = (id % 4) as usize;
            let max = self.get_max(stype);
            if id > max {
                None
            } else {
                self.streams.insert(id, Stream::new());
                proof {
                    assert(self.streams_view() =~= old(self).streams_view().insert(
                        id,
                        (StreamV {
                            offset: 0,
                            queued: Seq::<Seq<u8>>::empty(),
                            received: Seq::<Seq<u8>>::empty(),
                        }),
                    ));
                    assert(self.wf());
                }
                Some(StreamRef { id })
            }
        }
    }

    /// Ask to open the locally-initiated stream `id`. Within the advertised
    /// limit of its category the request completes at once and nothing
    /// changes. Beyond it, `id` joins the category's waiters, exactly one
    /// `StreamIdBlocked(id)` frame is queued, and the caller must wake the
    /// registered notification target exactly when `wake` is true; the
    /// request stays pending until the owner resolves or abandons the
    /// waiter.
    pub fn request_stream(&mut self, id: u64) -> (r: StreamRequest)
        requires
            old(self).wf(),
            id < VARINT_MAX,
        ensures
            final(self).wf(),
            ({
                let ci = (id % 4) as int;
                if id <= old(self).cat(ci).max {
                    r == StreamRequest::Ready && *final(self) == *old(self)
                } else {
                    &&& r == (StreamRequest::Blocked { wake: old(self).task_set })
                    &&& final(self).queue@ == old(self).queue@.push(
                        Frame::StreamIdBlocked(StreamIdBlockedFrame(id)),
                    )
                    &&& final(self).cat(ci).updates@ == old(self).cat(ci).updates@.push(id)
                    &&& final(self).cat(ci).next == old(self).cat(ci).next
                    &&& final(self).cat(ci).max == old(self).cat(ci).max
                    &&& forall|j: int|
                        0 <= j < 4 && j != ci ==> #[trigger] final(self).cat(j) == old(self).cat(
                            j,
                        )
                    &&& final(self).streams == old(self).streams
                    &&& final(self).side == old(self).side
                    &&& final(self).task_set == old(self).task_set
                }
            }),
    {
        let stype = (id % 4) as usize;
        let max = self.get_max(stype);
        if id <= max {
            StreamRequest::Ready
        } else {
            self.queue.push(Frame::StreamIdBlocked(StreamIdBlockedFrame(id)));
            self.push_update(stype, id);
            proof {
                assert(self.queue@ =~= old(self).queue@.push(
                    Frame::StreamIdBlocked(StreamIdBlockedFrame(id)),
                ));
                lemma_cat_fields(*self);
                lemma_cat_fields(*old(self));
                assert(self.wf());
            }
            StreamRequest::Blocked { wake: self.task_set }
        }
    }
}

impl StreamRef {
    /// The stream's progress marker, read under the registry.
    pub fn get_offset(&self, streams: &Streams) -> (r: u64)
        requires
            streams.streams_view().contains_key(self.id),
        ensures
            r == streams.streams_view()[self.id].offset,
    {
        proof {
            assert(streams.streams_view().dom() =~= streams.streams@.dom());
        }
        match streams.streams.get(&self.id) {
            Some(s) => s.offset,
            None => {
                proof {
                    assert(false);
                }
                0
            },
        }
    }

    /// Replace the stream's progress marker; nothing else changes.
    pub fn set_offset(&self, streams: &mut Streams, new: u64)
        requires
            old(streams).wf(),
            old(streams).streams_view().contains_key(self.id),
        ensures
            final(streams).wf(),
            final(streams).streams_view() == old(streams).streams_view().insert(
                self.id,
                (StreamV { offset: new, ..old(streams).streams_view()[self.id] }),
            ),
            final(streams).side == old(streams).side,
            final(streams).task_set == old(streams).task_set,
            final(streams).queue == old(streams).queue,
            forall|j: int| 0 <= j < 4 ==> #[trigger] final(streams).cat(j) == old(streams).cat(j),
    {
        proof {
            assert(old(streams).streams_view().dom() =~= old(streams).streams@.dom());
        }
        let mut s = match streams.streams.remove(&self.id) {
            Some(s) => s,
            None => {
                proof {
                    assert(false);
                }
                Stream::new()
            },
        };
        s.offset = new;
        streams.streams.insert(self.id, s);
        proof {
            assert(streams.streams_view() =~= old(streams).streams_view().insert(
                self.id,
                (StreamV { offset: new, ..old(streams).streams_view()[self.id] }),
            ));
            assert(streams.wf());
        }
    }
}

} // verus!
