use vstd::prelude::*;

use crate::text::{decimal_text, push_decimal};

verus! {

/// One logged action.
#[derive(Clone)]
pub struct LogEntry {
    /// Milliseconds since the Unix epoch when the entry was made.
    pub timestamp: u128,
    pub player: String,
    pub action: String,
}

/// The public and private entries of one hand.
pub struct HandLog {
    pub events: Vec<LogEntry>,
    pub private: Vec<LogEntry>,
}

/// The log of a table: one `HandLog` per hand played.
pub struct TableLog {
    pub table_name: String,
    pub hands: Vec<HandLog>,
}

/// Relies on `SystemTime::now`: milliseconds since the Unix epoch, read from
/// the system clock (0 when the clock is set before the epoch).
#[verifier::external_body]
fn clock_millis() -> u128 {
    std::time::SystemTime::now().duration_since(std::time::UNIX_EPOCH).map_or(0, |d| d.as_millis())
}

/// A log entry's text fields are the given player and action.
pub open spec fn entry_of(e: LogEntry, player: Seq<char>, action: Seq<char>) -> bool {
    e.player@ == player && e.action@ == action
}

impl LogEntry {
    /// An entry stamped with the current time.
    fn new(player: &str, action: &str) -> (e: LogEntry)
        ensures
            entry_of(e, player@, action@),
    {
        LogEntry { timestamp: clock_millis(), player: player.to_owned(), action: action.to_owned() }
    }
}

impl HandLog {
    /// A hand log with no entries.
    pub fn new() -> (h: HandLog)
        ensures
            h.events@.len() == 0,
            h.private@.len() == 0,
    {
        HandLog { events: Vec::new(), private: Vec::new() }
    }
}

impl Default for HandLog {
    fn default() -> (h: HandLog)
        ensures
            h.events@.len() == 0,
            h.private@.len() == 0,
    {
        HandLog::new()
    }
}

/// A table name: "table-" and the given number of seconds.
pub open spec fn table_label(secs: nat) -> Seq<char> {
    "table-"@ + decimal_text(secs)
}

impl TableLog {
    /// An empty log, named after the current time in seconds since the Unix epoch.
    pub fn new() -> (t: TableLog)
        ensures
            t.hands@.len() == 0,
            exists|secs: nat| t.table_name@ == table_label(secs),
    {
        let secs = clock_millis() / 1000;
        let secs64: u64 = if secs > u64::MAX as u128 {
            u64::MAX
        } else {
            secs as u64
        };
        TableLog::started_at(secs64)
    }

    /// An empty log for a table opened `secs` seconds after the Unix epoch.
    pub fn started_at(secs: u64) -> (t: TableLog)
        ensures
            t.hands@.len() == 0,
            t.table_name@ == table_label(secs as nat),
    {
        let mut table_name = String::new();
        table_name.push_str("table-");
        push_decimal(&mut table_name, secs);
        TableLog { table_name, hands: Vec::new() }
    }

    /// Opens the log of a new hand.
    pub fn start_hand(&mut self)
        ensures
            final(self).table_name == old(self).table_name,
            final(self).hands@.len() == old(self).hands@.len() + 1,
            forall|i: int| 0 <= i < old(self).hands@.len() ==> #[trigger] final(self).hands@[i] == old(self).hands@[i],
            final(self).hands@.last().events@.len() == 0,
            final(self).hands@.last().private@.len() == 0,
    {
        self.hands.push(HandLog::new());
    }

    /// Records a public action in the current hand; without a hand, nothing is recorded.
    pub fn log_action(&mut self, player: &str, action: &str)
        ensures
            final(self).table_name == old(self).table_name,
            final(self).hands@.len() == old(self).hands@.len(),
            old(self).hands@.len() == 0 ==> final(self).hands@ == old(self).hands@,
            old(self).hands@.len() > 0 ==> {
                let (h, g) = (final(self).hands@.last(), old(self).hands@.last());
                &&& final(self).hands@.drop_last() == old(self).hands@.drop_last()
                &&& h.private == g.private
                &&& h.events@.drop_last() == g.events@
                &&& h.events@.len() == g.events@.len() + 1
                &&& entry_of(h.events@.last(), player@, action@)
            },
    {
        let n = self.hands.len();
        if n > 0 {
            let e = LogEntry::new(player, action);
            self.hands[n - 1].events.push(e);
            assert(self.hands@.drop_last() =~= old(self).hands@.drop_last());
            assert(self.hands@.last().events@.drop_last() =~= old(self).hands@.last().events@);
        }
    }

    /// Records a private note (such as a player's cards) in the current hand;
    /// without a hand, nothing is recorded.
    pub fn log_private(&mut self, player: &str, action: &str)
        ensures
            final(self).table_name == old(self).table_name,
            final(self).hands@.len() == old(self).hands@.len(),
            old(self).hands@.len() == 0 ==> final(self).hands@ == old(self).hands@,
            old(self).hands@.len() > 0 ==> {
                let (h, g) = (final(self).hands@.last(), old(self).hands@.last());
                &&& final(self).hands@.drop_last() == old(self).hands@.drop_last()
                &&& h.events == g.events
                &&& h.private@.drop_last() == g.private@
                &&& h.private@.len() == g.private@.len() + 1
                &&& entry_of(h.private@.last(), player@, action@)
            },
    {
        let n = self.hands.len();
        if n > 0 {
            let e = LogEntry::new(player, action);
            self.hands[n - 1].private.push(e);
            assert(self.hands@.drop_last() =~= old(self).hands@.drop_last());
            assert(self.hands@.last().private@.drop_last() =~= old(self).hands@.last().private@);
        }
    }
}

} // verus!
