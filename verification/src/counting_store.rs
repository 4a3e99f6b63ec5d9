//! Counting how a workload uses an object store: requests and bytes, from which
//! the cost of running on a store that charges for both can be worked out.

use bytes::Bytes;
use std::ops::{Range, Sub};
use vstd::prelude::*;
use vstd::std_specs::ops::SubSpecImpl;

verus! {

/// A buffer of bytes. Opaque but for [`byte_contents`].
#[verifier::external_type_specification]
#[verifier::external_body]
pub struct ExBytes(Bytes);

/// The bytes in a buffer.
pub uninterp spec fn byte_contents(buffer: Bytes) -> Seq<u8>;

/// `Bytes::len`: how many bytes the buffer holds.
pub assume_specification[ Bytes::len ](buffer: &Bytes) -> (len: usize)
    ensures
        len == byte_contents(*buffer).len(),
;

/// Live counters.
#[derive(Debug)]
pub struct StoreStats {
    /// Single-object GET requests.
    pub get_requests: u64,
    /// Calls that request many ranges at once.
    pub get_ranges_calls: u64,
    /// Ranges asked for across all such calls, about one GET each.
    pub get_ranges_ranges: u64,
    /// HEAD requests, that is lookups of an object's size and metadata.
    pub head_requests: u64,
    /// LIST requests.
    pub list_requests: u64,
    /// Bytes returned by the store.
    pub bytes_read: u64,
}

/// The counters at one moment.
#[derive(Debug, Clone, Copy, PartialEq, Eq, Structural)]
pub struct StatsSnapshot {
    pub get_requests: u64,
    pub get_ranges_calls: u64,
    pub get_ranges_ranges: u64,
    pub head_requests: u64,
    pub list_requests: u64,
    pub bytes_read: u64,
}

/// A request to an object store.
#[derive(Debug, Clone, Copy, PartialEq, Eq, Structural)]
pub enum StoreRequest {
    GetOpts,
    GetRange,
    /// A batch of so many ranges.
    GetRanges(usize),
    Head,
    List,
    ListWithDelimiter,
    Put,
    PutMultipart,
    Delete,
    CopyObject,
    CopyIfNotExists,
}

/// What a store hands back when a read succeeds.
#[derive(Debug)]
pub enum StoreReply {
    /// The range of bytes that a GET will stream.
    GetOpts(Range<u64>),
    /// The bytes of one range.
    GetRange(Bytes),
    /// The bytes of each range of a batch.
    GetRanges(Vec<Bytes>),
}

/// No request counted.
pub open spec fn nothing_counted() -> StatsSnapshot {
    StatsSnapshot {
        get_requests: 0,
        get_ranges_calls: 0,
        get_ranges_ranges: 0,
        head_requests: 0,
        list_requests: 0,
        bytes_read: 0,
    }
}

/// The counters after one more request. Only reads are counted, and a counter
/// that is full starts over.
pub open spec fn after_request(s: StatsSnapshot, request: StoreRequest) -> StatsSnapshot {
    match request {
        StoreRequest::GetOpts | StoreRequest::GetRange => StatsSnapshot {
            get_requests: s.get_requests.wrapping_add(1),
            ..s
        },
        StoreRequest::GetRanges(n) => StatsSnapshot {
            get_ranges_calls: s.get_ranges_calls.wrapping_add(1),
            get_ranges_ranges: s.get_ranges_ranges.wrapping_add(n as u64),
            ..s
        },
        StoreRequest::Head => StatsSnapshot { head_requests: s.head_requests.wrapping_add(1), ..s },
        StoreRequest::List | StoreRequest::ListWithDelimiter => StatsSnapshot {
            list_requests: s.list_requests.wrapping_add(1),
            ..s
        },
        _ => s,
    }
}

/// The bytes in several buffers.
pub open spec fn total_len(buffers: Seq<Bytes>) -> nat
    decreases buffers.len(),
{
    if buffers.len() == 0 {
        0
    } else {
        total_len(buffers.drop_last()) + byte_contents(buffers.last()).len()
    }
}

/// The bytes that a reply transfers.
pub open spec fn reply_len(reply: StoreReply) -> int {
    match reply {
        StoreReply::GetOpts(range) => range.end - range.start,
        StoreReply::GetRange(buffer) => byte_contents(buffer).len() as int,
        StoreReply::GetRanges(buffers) => total_len(buffers@) as int,
    }
}

/// The counters after a reply.
pub open spec fn after_reply(s: StatsSnapshot, reply: StoreReply) -> StatsSnapshot {
    StatsSnapshot { bytes_read: s.bytes_read.wrapping_add(reply_len(reply) as u64), ..s }
}

impl Default for StoreStats {
    fn default() -> (stats: StoreStats)
        ensures
            stats.counts() == nothing_counted(),
    {
        StoreStats {
            get_requests: 0,
            get_ranges_calls: 0,
            get_ranges_ranges: 0,
            head_requests: 0,
            list_requests: 0,
            bytes_read: 0,
        }
    }
}

proof fn lemma_total_len_grows(buffers: Seq<Bytes>, k: int)
    requires
        0 <= k <= buffers.len(),
    ensures
        total_len(buffers.take(k)) <= total_len(buffers),
    decreases buffers.len() - k,
{
    if k == buffers.len() {
        assert(buffers.take(k) =~= buffers);
    } else {
        lemma_total_len_grows(buffers, k + 1);
        assert(buffers.take(k + 1).drop_last() =~= buffers.take(k));
    }
}

/// The bytes in several buffers.
fn sum_of_lens(buffers: &Vec<Bytes>) -> (total: u64)
    requires
        total_len(buffers@) <= u64::MAX,
    ensures
        total == total_len(buffers@),
{
    let mut total: u64 = 0;
    for k in 0..buffers.len()
        invariant
            total_len(buffers@) <= u64::MAX,
            total == total_len(buffers@.take(k as int)),
    {
        proof {
            assert(buffers@.take(k + 1).drop_last() =~= buffers@.take(k as int));
            lemma_total_len_grows(buffers@, k + 1);
        }
        total += buffers[k].len() as u64;
    }
    proof {
        assert(buffers@.take(buffers@.len() as int) =~= buffers@);
    }
    total
}

impl StoreStats {
    /// The counters, as contracts see them.
    pub open spec fn counts(self) -> StatsSnapshot {
        StatsSnapshot {
            get_requests: self.get_requests,
            get_ranges_calls: self.get_ranges_calls,
            get_ranges_ranges: self.get_ranges_ranges,
            head_requests: self.head_requests,
            list_requests: self.list_requests,
            bytes_read: self.bytes_read,
        }
    }

    /// Reads the counters out.
    pub fn snapshot(&self) -> (snapshot: StatsSnapshot)
        ensures
            snapshot == self.counts(),
    {
        StatsSnapshot {
            get_requests: self.get_requests,
            get_ranges_calls: self.get_ranges_calls,
            get_ranges_ranges: self.get_ranges_ranges,
            head_requests: self.head_requests,
            list_requests: self.list_requests,
            bytes_read: self.bytes_read,
        }
    }

    /// Counts a request that is about to be sent, whether or not it succeeds.
    pub fn record_request(&mut self, request: &StoreRequest)
        ensures
            final(self).counts() == after_request(old(self).counts(), *request),
    {
        match request {
            StoreRequest::GetOpts | StoreRequest::GetRange => {
                self.get_requests = self.get_requests.wrapping_add(1);
            },
            StoreRequest::GetRanges(n) => {
                self.get_ranges_calls = self.get_ranges_calls.wrapping_add(1);
                self.get_ranges_ranges = self.get_ranges_ranges.wrapping_add(*n as u64);
            },
            StoreRequest::Head => {
                self.head_requests = self.head_requests.wrapping_add(1);
            },
            StoreRequest::List | StoreRequest::ListWithDelimiter => {
                self.list_requests = self.list_requests.wrapping_add(1);
            },
            _ => {},
        }
    }

    /// Counts the bytes of a read that succeeded.
    pub fn record_reply(&mut self, reply: &StoreReply)
        requires
            0 <= reply_len(*reply) <= u64::MAX,
        ensures
            final(self).counts() == after_reply(old(self).counts(), *reply),
    {
        let n: u64 = match reply {
            StoreReply::GetOpts(range) => range.end - range.start,
            StoreReply::GetRange(buffer) => buffer.len() as u64,
            StoreReply::GetRanges(buffers) => sum_of_lens(buffers),
        };
        self.bytes_read = self.bytes_read.wrapping_add(n);
    }
}

impl Default for StatsSnapshot {
    fn default() -> (snapshot: StatsSnapshot)
        ensures
            snapshot == nothing_counted(),
    {
        StatsSnapshot {
            get_requests: 0,
            get_ranges_calls: 0,
            get_ranges_ranges: 0,
            head_requests: 0,
            list_requests: 0,
            bytes_read: 0,
        }
    }
}

impl StatsSnapshot {
    /// No counter of `earlier` is ahead of this one's.
    pub open spec fn follows(self, earlier: StatsSnapshot) -> bool {
        &&& earlier.get_requests <= self.get_requests
        &&& earlier.get_ranges_calls <= self.get_ranges_calls
        &&& earlier.get_ranges_ranges <= self.get_ranges_ranges
        &&& earlier.head_requests <= self.head_requests
        &&& earlier.list_requests <= self.list_requests
        &&& earlier.bytes_read <= self.bytes_read
    }

    /// What was counted since `earlier`.
    pub open spec fn since(self, earlier: StatsSnapshot) -> StatsSnapshot {
        StatsSnapshot {
            get_requests: (self.get_requests - earlier.get_requests) as u64,
            get_ranges_calls: (self.get_ranges_calls - earlier.get_ranges_calls) as u64,
            get_ranges_ranges: (self.get_ranges_ranges - earlier.get_ranges_ranges) as u64,
            head_requests: (self.head_requests - earlier.head_requests) as u64,
            list_requests: (self.list_requests - earlier.list_requests) as u64,
            bytes_read: (self.bytes_read - earlier.bytes_read) as u64,
        }
    }

    /// GET requests that reach the store: single GETs and each range of a batch.
    /// A store may join adjacent ranges, so that this is an upper bound.
    pub fn total_gets(&self) -> (gets: u64)
        requires
            self.get_requests + self.get_ranges_ranges <= u64::MAX,
        ensures
            gets == self.get_requests + self.get_ranges_ranges,
    {
        self.get_requests + self.get_ranges_ranges
    }
}

impl SubSpecImpl for StatsSnapshot {
    open spec fn obeys_sub_spec() -> bool {
        true
    }

    open spec fn sub_req(self, earlier: StatsSnapshot) -> bool {
        self.follows(earlier)
    }

    open spec fn sub_spec(self, earlier: StatsSnapshot) -> StatsSnapshot {
        self.since(earlier)
    }
}

impl Sub for StatsSnapshot {
    type Output = StatsSnapshot;

    /// What was counted since `earlier`.
    fn sub(self, earlier: StatsSnapshot) -> (difference: StatsSnapshot) {
        StatsSnapshot {
            get_requests: self.get_requests - earlier.get_requests,
            get_ranges_calls: self.get_ranges_calls - earlier.get_ranges_calls,
            get_ranges_ranges: self.get_ranges_ranges - earlier.get_ranges_ranges,
            head_requests: self.head_requests - earlier.head_requests,
            list_requests: self.list_requests - earlier.list_requests,
            bytes_read: self.bytes_read - earlier.bytes_read,
        }
    }
}

/// One thing that a counting store sees.
pub enum StoreEvent {
    Request(StoreRequest),
    Reply(StoreReply),
}

/// The counters after a run of requests and replies.
pub open spec fn after_events(s: StatsSnapshot, events: Seq<StoreEvent>) -> StatsSnapshot
    decreases events.len(),
{
    if events.len() == 0 {
        s
    } else {
        let before = after_events(s, events.drop_last());
        match events.last() {
            StoreEvent::Request(request) => after_request(before, request),
            StoreEvent::Reply(reply) => after_reply(before, reply),
        }
    }
}

/// What one event adds to each counter.
pub struct Tally {
    pub gets: nat,
    pub batches: nat,
    pub ranges: nat,
    pub heads: nat,
    pub lists: nat,
    pub bytes: nat,
}

/// What a run of events adds up to.
pub open spec fn tally(events: Seq<StoreEvent>) -> Tally
    decreases events.len(),
{
    if events.len() == 0 {
        Tally { gets: 0, batches: 0, ranges: 0, heads: 0, lists: 0, bytes: 0 }
    } else {
        let t = tally(events.drop_last());
        match events.last() {
            StoreEvent::Request(StoreRequest::GetOpts) => Tally { gets: t.gets + 1, ..t },
            StoreEvent::Request(StoreRequest::GetRange) => Tally { gets: t.gets + 1, ..t },
            StoreEvent::Request(StoreRequest::GetRanges(n)) => Tally {
                batches: t.batches + 1,
                ranges: t.ranges + n as nat,
                ..t
            },
            StoreEvent::Request(StoreRequest::Head) => Tally { heads: t.heads + 1, ..t },
            StoreEvent::Request(StoreRequest::List) => Tally { lists: t.lists + 1, ..t },
            StoreEvent::Request(StoreRequest::ListWithDelimiter) => Tally {
                lists: t.lists + 1,
                ..t
            },
            StoreEvent::Request(_) => t,
            StoreEvent::Reply(reply) => Tally { bytes: t.bytes + reply_len(reply) as nat, ..t },
        }
    }
}

/// Replies whose length can be counted.
pub open spec fn replies_fit(events: Seq<StoreEvent>) -> bool {
    forall|i: int|
        0 <= i < events.len() ==> (#[trigger] events[i] matches StoreEvent::Reply(reply) ==> 0
            <= reply_len(reply) <= u64::MAX)
}

/// While no counter runs over, the difference of two snapshots is exactly what
/// was requested and transferred between them.
pub proof fn law_difference_is_what_happened(before: StatsSnapshot, events: Seq<StoreEvent>)
    requires
        replies_fit(events),
        before.get_requests + tally(events).gets <= u64::MAX,
        before.get_ranges_calls + tally(events).batches <= u64::MAX,
        before.get_ranges_ranges + tally(events).ranges <= u64::MAX,
        before.head_requests + tally(events).heads <= u64::MAX,
        before.list_requests + tally(events).lists <= u64::MAX,
        before.bytes_read + tally(events).bytes <= u64::MAX,
    ensures
        after_events(before, events).follows(before),
        ({
            let difference = after_events(before, events).since(before);
            &&& difference.get_requests == tally(events).gets
            &&& difference.get_ranges_calls == tally(events).batches
            &&& difference.get_ranges_ranges == tally(events).ranges
            &&& difference.head_requests == tally(events).heads
            &&& difference.list_requests == tally(events).lists
            &&& difference.bytes_read == tally(events).bytes
        }),
    decreases events.len(),
{
    if events.len() > 0 {
        let init = events.drop_last();
        assert(replies_fit(init)) by {
            assert forall|i: int| 0 <= i < init.len() implies (#[trigger] init[i] matches StoreEvent::Reply(
                reply,
            ) ==> 0 <= reply_len(reply) <= u64::MAX) by {
                assert(init[i] == events[i]);
            }
        }
        assert(events.last() == events[events.len() - 1]);
        law_difference_is_what_happened(before, init);
    }
}

/// A counter that has room goes up by one for each request that it is for, or by the
/// number of ranges, and no other counter changes. Requests that do not read are not
/// counted.
pub proof fn law_each_request_is_counted_once(s: StatsSnapshot, request: StoreRequest)
    requires
        s.get_requests < u64::MAX,
        s.get_ranges_calls < u64::MAX,
        s.head_requests < u64::MAX,
        s.list_requests < u64::MAX,
        request matches StoreRequest::GetRanges(n) ==> s.get_ranges_ranges + n <= u64::MAX,
    ensures
        after_request(s, request).get_requests - s.get_requests == if request is GetOpts
            || request is GetRange {
            1int
        } else {
            0
        },
        after_request(s, request).get_ranges_calls - s.get_ranges_calls == if request is GetRanges {
            1int
        } else {
            0
        },
        after_request(s, request).get_ranges_ranges - s.get_ranges_ranges == match request {
            StoreRequest::GetRanges(n) => n as int,
            _ => 0,
        },
        after_request(s, request).head_requests - s.head_requests == if request is Head {
            1int
        } else {
            0
        },
        after_request(s, request).list_requests - s.list_requests == if request is List
            || request is ListWithDelimiter {
            1int
        } else {
            0
        },
        after_request(s, request).bytes_read == s.bytes_read,
{
}

/// A reply adds exactly its bytes while they fit, and changes nothing else.
pub proof fn law_each_reply_adds_its_bytes(s: StatsSnapshot, reply: StoreReply)
    requires
        0 <= reply_len(reply),
        s.bytes_read + reply_len(reply) <= u64::MAX,
    ensures
        after_reply(s, reply) == (StatsSnapshot {
            bytes_read: (s.bytes_read + match reply {
                StoreReply::GetOpts(range) => range.end - range.start,
                StoreReply::GetRange(buffer) => byte_contents(buffer).len() as int,
                StoreReply::GetRanges(buffers) => buffers@.fold_left(
                    0int,
                    |sum: int, buffer: Bytes| sum + byte_contents(buffer).len(),
                ),
            }) as u64,
            ..s
        }),
{
    if let StoreReply::GetRanges(buffers) = reply {
        lemma_total_len_is_sum(buffers@);
    }
}

proof fn lemma_total_len_is_sum(buffers: Seq<Bytes>)
    ensures
        total_len(buffers) == buffers.fold_left(
            0int,
            |sum: int, buffer: Bytes| sum + byte_contents(buffer).len(),
        ),
    decreases buffers.len(),
{
    if buffers.len() > 0 {
        lemma_total_len_is_sum(buffers.drop_last());
    }
}

/// What was counted before and what was counted since is what was counted in all.
pub proof fn law_difference_makes_up_the_rest(before: StatsSnapshot, after: StatsSnapshot)
    requires
        after.follows(before),
    ensures
        before.get_requests + after.since(before).get_requests == after.get_requests,
        before.get_ranges_calls + after.since(before).get_ranges_calls == after.get_ranges_calls,
        before.get_ranges_ranges + after.since(before).get_ranges_ranges
            == after.get_ranges_ranges,
        before.head_requests + after.since(before).head_requests == after.head_requests,
        before.list_requests + after.since(before).list_requests == after.list_requests,
        before.bytes_read + after.since(before).bytes_read == after.bytes_read,
{
}

/// What a run of events adds up to is what its parts add up to.
pub proof fn law_events_add_up(a: Seq<StoreEvent>, b: Seq<StoreEvent>)
    ensures
        ({
            let (first, second, both) = (tally(a), tally(b), tally(a + b));
            &&& both.gets == first.gets + second.gets
            &&& both.batches == first.batches + second.batches
            &&& both.ranges == first.ranges + second.ranges
            &&& both.heads == first.heads + second.heads
            &&& both.lists == first.lists + second.lists
            &&& both.bytes == first.bytes + second.bytes
        }),
    decreases b.len(),
{
    if b.len() == 0 {
        assert(a + b =~= a);
    } else {
        law_events_add_up(a, b.drop_last());
        assert((a + b).drop_last() =~= a + b.drop_last());
        assert((a + b).last() == b.last());
    }
}

/// A counter that is full starts over, and so does the count of bytes when it runs over.
pub proof fn law_full_counters_start_over(s: StatsSnapshot, reply: StoreReply)
    ensures
        s.get_requests == u64::MAX ==> after_request(s, StoreRequest::GetOpts).get_requests == 0
            && after_request(s, StoreRequest::GetRange).get_requests == 0,
        s.get_ranges_calls == u64::MAX ==> forall|n: usize|
            (#[trigger] after_request(s, StoreRequest::GetRanges(n))).get_ranges_calls == 0,
        forall|n: usize|
            s.get_ranges_ranges + n > u64::MAX && n <= u64::MAX ==> (#[trigger] after_request(
                s,
                StoreRequest::GetRanges(n),
            )).get_ranges_ranges == s.get_ranges_ranges + n - u64::MAX - 1,
        s.head_requests == u64::MAX ==> after_request(s, StoreRequest::Head).head_requests == 0,
        s.list_requests == u64::MAX ==> after_request(s, StoreRequest::List).list_requests == 0
            && after_request(s, StoreRequest::ListWithDelimiter).list_requests == 0,
        0 <= reply_len(reply) <= u64::MAX && s.bytes_read + reply_len(reply) > u64::MAX
            ==> after_reply(s, reply).bytes_read == s.bytes_read + reply_len(reply) - u64::MAX - 1,
{
}

/// One snapshot follows another exactly if no counter went down in between.
pub proof fn law_later_counters_are_no_smaller(before: StatsSnapshot, after: StatsSnapshot)
    ensures
        after.follows(before) <==> !(before.get_requests > after.get_requests
            || before.get_ranges_calls > after.get_ranges_calls || before.get_ranges_ranges
            > after.get_ranges_ranges || before.head_requests > after.head_requests
            || before.list_requests > after.list_requests || before.bytes_read
            > after.bytes_read),
        after.follows(after),
        after.since(after) == nothing_counted(),
        after.since(nothing_counted()) == after,
{
}

} // verus!
