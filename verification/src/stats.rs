//! Counters of the server, and who may connect.
use vstd::prelude::*;

use crate::model::wrapped;

verus! {

/// How many commands are counted locally before the total is told of them.
pub const COUNT_BATCH: u64 = 256;

/// Counters of the server.
#[derive(Clone, Copy, PartialEq, Eq, Structural, Debug)]
pub struct ServerStats {
    pub total_connections: u64,
    pub active_connections: usize,
    pub total_commands: u64,
    pub rejected_connections: u64,
}

/// Commands that the total has not been told of yet.
#[derive(Clone, Copy, PartialEq, Eq, Structural, Debug)]
pub struct LocalCount {
    pub commands: u64,
}

impl ServerStats {
    /// Nothing has happened yet.
    pub open spec fn zero() -> ServerStats {
        ServerStats {
            total_connections: 0,
            active_connections: 0,
            total_commands: 0,
            rejected_connections: 0,
        }
    }

    /// `n` more commands in total.
    pub open spec fn with_commands(self, n: int) -> ServerStats {
        ServerStats { total_commands: wrapped(self.total_commands + n), ..self }
    }

    /// A connection was opened.
    pub open spec fn opens(self, after: ServerStats) -> bool {
        &&& after.total_connections == wrapped(self.total_connections + 1)
        &&& after.active_connections == (if self.active_connections < usize::MAX {
            self.active_connections + 1
        } else {
            0
        })
        &&& after.total_commands == self.total_commands
        &&& after.rejected_connections == self.rejected_connections
    }

    /// A connection was closed.
    pub open spec fn closes(self, after: ServerStats) -> bool {
        &&& after.total_connections == self.total_connections
        &&& after.active_connections == (if self.active_connections > 0 {
            self.active_connections - 1
        } else {
            usize::MAX as int
        })
        &&& after.total_commands == self.total_commands
        &&& after.rejected_connections == self.rejected_connections
    }

    /// A connection was turned away.
    pub open spec fn rejects(self, after: ServerStats) -> bool {
        &&& after.rejected_connections == wrapped(self.rejected_connections + 1)
        &&& after.total_connections == self.total_connections
        &&& after.active_connections == self.active_connections
        &&& after.total_commands == self.total_commands
    }

    /// One more connection is within the limit; zero stands for no limit.
    pub open spec fn has_place(self, max_connections: usize) -> bool {
        max_connections == 0 || self.active_connections < max_connections
    }

    /// Counters at zero.
    pub fn new() -> (stats: ServerStats)
        ensures
            stats == ServerStats::zero(),
    {
        ServerStats {
            total_connections: 0,
            active_connections: 0,
            total_commands: 0,
            rejected_connections: 0,
        }
    }

    /// Counts a connection that was opened.
    pub fn connection_opened(&mut self)
        ensures
            old(self).opens(*final(self)),
    {
        self.total_connections = self.total_connections.wrapping_add(1);
        self.active_connections = self.active_connections.wrapping_add(1);
    }

    /// Counts a connection that was closed.
    pub fn connection_closed(&mut self)
        ensures
            old(self).closes(*final(self)),
    {
        self.active_connections = self.active_connections.wrapping_sub(1);
    }

    /// Counts a connection that was turned away.
    pub fn connection_rejected(&mut self)
        ensures
            old(self).rejects(*final(self)),
    {
        self.rejected_connections = self.rejected_connections.wrapping_add(1);
    }

    /// Whether one more connection is within the limit; zero stands for no limit.
    pub fn admits(&self, max_connections: usize) -> (admitted: bool)
        ensures
            admitted == self.has_place(max_connections),
    {
        max_connections == 0 || self.active_connections < max_connections
    }
}

impl LocalCount {
    /// Less than a batch waits.
    pub open spec fn wf(self) -> bool {
        self.commands < COUNT_BATCH
    }

    /// One command was counted; the total was told once a batch was full.
    pub open spec fn counts_one(
        self,
        stats: ServerStats,
        after: LocalCount,
        told: ServerStats,
    ) -> bool {
        &&& after.commands == (self.commands + 1) % COUNT_BATCH as int
        &&& told == stats.with_commands(self.commands + 1 - after.commands)
    }

    /// The total was told of the commands that waited.
    pub open spec fn tells_rest(
        self,
        stats: ServerStats,
        after: LocalCount,
        told: ServerStats,
    ) -> bool {
        after.commands == 0 && told == stats.with_commands(self.commands as int)
    }

    /// No command waits.
    pub fn new() -> (count: LocalCount)
        ensures
            count.wf(),
            count.commands == 0,
    {
        LocalCount { commands: 0 }
    }

    /// Counts one command; the total is told once a batch is full.
    pub fn record(&mut self, stats: &mut ServerStats)
        requires
            old(self).wf(),
        ensures
            final(self).wf(),
            old(self).counts_one(*old(stats), *final(self), *final(stats)),
    {
        let count: u64 = self.commands + 1;
        if count >= COUNT_BATCH {
            stats.total_commands = stats.total_commands.wrapping_add(COUNT_BATCH);
            self.commands = 0;
        } else {
            self.commands = count;
        }
        assert(*stats == old(stats).with_commands(old(self).commands + 1 - self.commands));
    }

    /// Tells the total of the commands that wait.
    pub fn drain(&mut self, stats: &mut ServerStats)
        requires
            old(self).wf(),
        ensures
            old(self).tells_rest(*old(stats), *final(self), *final(stats)),
    {
        stats.total_commands = stats.total_commands.wrapping_add(self.commands);
        self.commands = 0;
        assert(*stats == old(stats).with_commands(old(self).commands as int));
    }
}

/// Connections admitted in the second that is counted.
#[derive(Clone, Copy, PartialEq, Eq, Structural, Debug)]
pub struct RateLimiter {
    /// The second that is counted.
    pub second: u64,
    /// How many connections it has seen admitted.
    pub admitted: u64,
}

impl RateLimiter {
    /// How many connections have been admitted in a second.
    pub open spec fn admitted_in(self, second: u64) -> u64 {
        if self.second == second {
            self.admitted
        } else {
            0
        }
    }

    /// What asking for one more connection in the second `now` comes to.
    pub open spec fn asked(
        self,
        limit: u64,
        now: u64,
        after: RateLimiter,
        admitted: bool,
    ) -> bool {
        &&& admitted == (limit == 0 || self.admitted_in(now) < limit)
        &&& limit == 0 ==> after == self
        &&& limit > 0 ==> after.second == now && after.admitted == self.admitted_in(now) + (
        if admitted {
            1int
        } else {
            0int
        })
    }

    /// No connection admitted yet.
    pub fn new() -> (limiter: RateLimiter)
        ensures
            forall|second: u64| #[trigger] limiter.admitted_in(second) == 0,
    {
        RateLimiter { second: 0, admitted: 0 }
    }

    /// Whether one more connection in the second `now` is within the limit, and counts it if so;
    /// zero stands for no limit.
    pub fn check_rate_limit(&mut self, limit: u64, now: u64) -> (admitted: bool)
        ensures
            old(self).asked(limit, now, *final(self), admitted),
    {
        if limit == 0 {
            return true;
        }
        if self.second != now {
            self.second = now;
            self.admitted = 0;
        }
        if self.admitted < limit {
            self.admitted = self.admitted + 1;
            true
        } else {
            false
        }
    }
}

/// The requests whose replies wait to be sent.
#[derive(Clone, Copy, PartialEq, Eq, Structural, Debug)]
pub struct Batch {
    pub requests: usize,
}

impl Batch {
    /// What one more request comes to: whether the replies are sent, and what waits then.
    pub open spec fn takes_one(
        self,
        batch_size: usize,
        buffered: usize,
        buffer_size: usize,
        more_arrived: bool,
        after: Batch,
        sends: bool,
    ) -> bool {
        &&& sends == (self.requests + 1 >= batch_size || buffered >= buffer_size || !more_arrived)
        &&& after.requests == (if sends {
            0
        } else {
            self.requests + 1
        })
    }

    /// No reply waits.
    pub fn new() -> (batch: Batch)
        ensures
            batch.requests == 0,
    {
        Batch { requests: 0 }
    }

    /// Counts a request, and tells whether the replies are sent now: the batch is full, the buffer
    /// is full, or nothing more has arrived. A new batch starts then.
    pub fn request_done(
        &mut self,
        batch_size: usize,
        buffered: usize,
        buffer_size: usize,
        more_arrived: bool,
    ) -> (sends: bool)
        ensures
            old(self).takes_one(
                batch_size,
                buffered,
                buffer_size,
                more_arrived,
                *final(self),
                sends,
            ),
    {
        let sends = batch_size == 0 || self.requests >= batch_size - 1 || buffered >= buffer_size
            || !more_arrived;
        if sends {
            self.requests = 0;
        } else {
            self.requests = self.requests + 1;
        }
        sends
    }
}

/// What can become of a connection.
pub ghost enum Event {
    Opened,
    Closed,
    Rejected,
}

/// How often something happened.
pub open spec fn occurrences(events: Seq<Event>, event: Event) -> nat
    decreases events.len(),
{
    if events.len() == 0 {
        0
    } else {
        occurrences(events.drop_last(), event) + (if events.last() == event {
            1nat
        } else {
            0nat
        })
    }
}

/// What the counters are told of an event.
pub open spec fn happens(before: ServerStats, event: Event, after: ServerStats) -> bool {
    match event {
        Event::Opened => before.opens(after),
        Event::Closed => before.closes(after),
        Event::Rejected => before.rejects(after),
    }
}

/// The counters went through these states while this happened.
pub open spec fn went_through(states: Seq<ServerStats>, events: Seq<Event>) -> bool {
    &&& states.len() == events.len() + 1
    &&& forall|i: int, j: int|
        0 <= i && j == i + 1 && j < states.len() ==> happens(
            #[trigger] states[i],
            events[i],
            #[trigger] states[j],
        )
}

/// From a start at nothing, the counters tell how many connections were opened, how many of them
/// are still open, and how many were turned away.
pub proof fn law_connections_are_counted(states: Seq<ServerStats>, events: Seq<Event>)
    requires
        went_through(states, events),
        states[0] == ServerStats::zero(),
        events.len() <= usize::MAX,
        forall|n: int|
            0 <= n <= events.len() ==> occurrences(#[trigger] events.take(n), Event::Closed)
                <= occurrences(events.take(n), Event::Opened),
    ensures
        states.last().total_connections == occurrences(events, Event::Opened),
        states.last().active_connections == occurrences(events, Event::Opened) - occurrences(
            events,
            Event::Closed,
        ),
        states.last().rejected_connections == occurrences(events, Event::Rejected),
        states.last().total_commands == 0,
        occurrences(events, Event::Opened) + occurrences(events, Event::Rejected) <= events.len(),
    decreases events.len(),
{
    assert(events.take(events.len() as int) =~= events);
    if events.len() > 0 {
        let n = events.len() - 1;
        let (rest, seen) = (events.drop_last(), states.drop_last());
        assert forall|m: int| 0 <= m <= rest.len() implies occurrences(
            #[trigger] rest.take(m),
            Event::Closed,
        ) <= occurrences(rest.take(m), Event::Opened) by {
            assert(rest.take(m) =~= events.take(m));
        }
        assert forall|i: int, j: int| 0 <= i && j == i + 1 && j < seen.len() implies happens(
            #[trigger] seen[i],
            rest[i],
            #[trigger] seen[j],
        ) by {
            assert(happens(states[i], events[i], states[j]));
        }
        law_connections_are_counted(seen, rest);
        assert(happens(states[n], events[n], states[n + 1]));
        assert(seen.last() == states[n]);
    }
}

/// A connection that is closed leaves as many open as if it had never been opened, and one that is
/// opened as many as if none had been closed.
pub proof fn law_closing_undoes_opening(before: ServerStats, between: ServerStats, after: ServerStats)
    requires
        before.opens(between) && between.closes(after) || before.closes(between) && between.opens(
            after,
        ),
    ensures
        after.active_connections == before.active_connections,
{
}

/// Where connections are opened only as the limit admits them, there are never more than that; and
/// none is turned away while there is a place left, or where there is no limit.
pub proof fn law_limit_on_connections(before: ServerStats, max_connections: usize, after: ServerStats)
    requires
        before.opens(after),
    ensures
        before.has_place(max_connections) && 0 < max_connections ==> after.active_connections
            <= max_connections && after.active_connections == before.active_connections + 1,
        max_connections == 0 || before.active_connections < max_connections ==> before.has_place(
            max_connections,
        ),
{
}

/// No command is lost or counted twice: those that the total shows and those that wait grow by one
/// together; the total is not told before a batch is full.
pub proof fn law_one_command_is_counted_once(
    count: LocalCount,
    stats: ServerStats,
    after: LocalCount,
    told: ServerStats,
)
    requires
        count.commands < 256,
        count.counts_one(stats, after, told),
        stats.total_commands + 256 <= u64::MAX,
    ensures
        told.total_commands + after.commands == stats.total_commands + count.commands + 1,
        after.commands < 256,
        count.commands < 255 ==> told == stats,
        count.commands == 255 ==> after.commands == 0,
        told.total_connections == stats.total_connections,
        told.active_connections == stats.active_connections,
        told.rejected_connections == stats.rejected_connections,
{
}

/// In the end the total shows the commands that waited as well.
pub proof fn law_waiting_commands_are_told(
    count: LocalCount,
    stats: ServerStats,
    after: LocalCount,
    told: ServerStats,
)
    requires
        count.commands < 256,
        count.tells_rest(stats, after, told),
        stats.total_commands + 256 <= u64::MAX,
    ensures
        told.total_commands == stats.total_commands + count.commands,
        after.commands == 0,
        told.total_connections == stats.total_connections,
        told.active_connections == stats.active_connections,
        told.rejected_connections == stats.rejected_connections,
{
}

/// A limiter is asked again and again in one second, and answers.
pub open spec fn asked_in_a_row(
    states: Seq<RateLimiter>,
    limit: u64,
    now: u64,
    answers: Seq<bool>,
) -> bool {
    &&& states.len() == answers.len() + 1
    &&& forall|i: int, j: int|
        0 <= i && j == i + 1 && j < states.len() ==> (#[trigger] states[i]).asked(
            limit,
            now,
            #[trigger] states[j],
            answers[i],
        )
}

/// Of the connections that are asked for in one second just the first `limit` are admitted; all of
/// them where there is no limit. It does not matter what was admitted in another second.
pub proof fn law_rate_is_limited(
    states: Seq<RateLimiter>,
    limit: u64,
    now: u64,
    answers: Seq<bool>,
)
    requires
        asked_in_a_row(states, limit, now, answers),
        states[0].second != now || states[0].admitted == 0,
    ensures
        forall|i: int|
            0 <= i < answers.len() ==> #[trigger] answers[i] == (limit == 0 || i < limit),
        limit > 0 && answers.len() > 0 ==> states.last().second == now && states.last().admitted == (
        if answers.len() <= limit {
            answers.len() as int
        } else {
            limit as int
        }),
        limit == 0 ==> states.last() == states[0],
    decreases answers.len(),
{
    if answers.len() > 0 {
        let n = answers.len() - 1;
        let (rest, seen) = (answers.drop_last(), states.drop_last());
        assert forall|i: int, j: int| 0 <= i && j == i + 1 && j < seen.len() implies (
        #[trigger] seen[i]).asked(limit, now, #[trigger] seen[j], rest[i]) by {
            assert(states[i].asked(limit, now, states[j], answers[i]));
        }
        law_rate_is_limited(seen, limit, now, rest);
        assert(states[n].asked(limit, now, states[n + 1], answers[n]));
        assert(seen.last() == states[n]);
        assert forall|i: int| 0 <= i < answers.len() implies #[trigger] answers[i] == (limit == 0
            || i < limit) by {
            if i < n {
                assert(answers[i] == rest[i]);
            }
        }
    }
}

/// Requests come in one after the other, with more to come and room in the buffer.
pub open spec fn requests_in_a_row(
    states: Seq<Batch>,
    batch_size: usize,
    buffered: Seq<usize>,
    buffer_size: usize,
    sent: Seq<bool>,
) -> bool {
    &&& states.len() == sent.len() + 1
    &&& buffered.len() == sent.len()
    &&& forall|i: int| 0 <= i < buffered.len() ==> #[trigger] buffered[i] < buffer_size
    &&& forall|i: int, j: int|
        0 <= i && j == i + 1 && j < states.len() ==> (#[trigger] states[i]).takes_one(
            batch_size,
            buffered[i],
            buffer_size,
            true,
            #[trigger] states[j],
            sent[i],
        )
}

/// While more requests come in and the buffer has room, replies are sent when as many requests as a
/// batch holds have been answered, and not before.
pub proof fn law_replies_are_sent_in_batches(
    states: Seq<Batch>,
    batch_size: usize,
    buffered: Seq<usize>,
    buffer_size: usize,
    sent: Seq<bool>,
)
    requires
        requests_in_a_row(states, batch_size, buffered, buffer_size, sent),
        states[0].requests == 0,
        0 < sent.len() <= batch_size,
    ensures
        forall|i: int| 0 <= i < sent.len() ==> #[trigger] sent[i] == (i + 1 == batch_size),
        states.last().requests == (if sent.len() == batch_size {
            0
        } else {
            sent.len() as int
        }),
    decreases sent.len(),
{
    let n = sent.len() - 1;
    assert(states[n].takes_one(
        batch_size,
        buffered[n],
        buffer_size,
        true,
        states[n + 1],
        sent[n],
    ));
    assert(buffered[n] < buffer_size);
    if n > 0 {
        let (few, seen, held) = (sent.drop_last(), states.drop_last(), buffered.drop_last());
        assert forall|i: int, j: int| 0 <= i && j == i + 1 && j < seen.len() implies (
        #[trigger] seen[i]).takes_one(
            batch_size,
            held[i],
            buffer_size,
            true,
            #[trigger] seen[j],
            few[i],
        ) by {
            assert(states[i].takes_one(
                batch_size,
                buffered[i],
                buffer_size,
                true,
                states[j],
                sent[i],
            ));
        }
        law_replies_are_sent_in_batches(seen, batch_size, held, buffer_size, few);
        assert(seen.last() == states[n]);
        assert forall|i: int| 0 <= i < sent.len() implies #[trigger] sent[i] == (i + 1
            == batch_size) by {
            if i < n {
                assert(sent[i] == few[i]);
            }
        }
    }
}

/// Replies never wait where nothing more has arrived, or where the buffer is full.
pub proof fn law_replies_do_not_wait(
    before: Batch,
    batch_size: usize,
    buffered: usize,
    buffer_size: usize,
    more_arrived: bool,
    after: Batch,
    sends: bool,
)
    requires
        before.takes_one(batch_size, buffered, buffer_size, more_arrived, after, sends),
    ensures
        !more_arrived || buffered >= buffer_size ==> sends,
        sends ==> after.requests == 0,
        !sends ==> after.requests == before.requests + 1 && after.requests < batch_size,
{
}

} // verus!
