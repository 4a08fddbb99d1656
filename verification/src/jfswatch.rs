//! The watch itself: what is watched, how often, and the command that a change sets off.

use std::fmt::Write;
use vstd::prelude::*;

use crate::explorers::PathExplorer;
use crate::template::asks_for_time;
use crate::template::form_of;
use crate::template::lemma_time_not_asked_for;
use crate::template::lemma_placeholder_replaced;
use crate::template::substitute;
use crate::template::substituted;
use crate::template::Placeholder;
use crate::template::Values;
use crate::text::join;
use crate::text::joined;
use crate::watched_fs::difference;
use crate::watched_fs::knows;
use crate::watched_fs::lemma_single_new;
use crate::watched_fs::single;
use crate::watched_fs::sighted_all;
use crate::watched_fs::Difference;
use crate::watched_fs::FSDifference;
use crate::watched_fs::Fact;
use crate::watched_fs::Sighting;
use crate::watched_fs::Timestamp;
use crate::watched_fs::WatchedFS;

verus! {

/// The format for writing times
const LOCAL_DATE_FORMAT: &'static str = "%Y-%m-%d %H:%M:%S%.3f";

/// Writes the instant `secs` seconds and `nanos` nanoseconds after the Unix epoch in the
/// time zone of the machine, as `format` says.
///
/// Makes the instant with `chrono::DateTime::from_timestamp`, moves it to `chrono::Local`
/// and writes what `DateTime::format` gives. `None` where chrono cannot hold the instant or
/// refuses the format. Trusted: nothing is claimed of the text, which depends on the time
/// zone.
#[verifier::external_body]
fn format_local(secs: i64, nanos: u32, format: &str) -> Option<String> {
    let utc = chrono::DateTime::from_timestamp(secs, nanos)?;
    let mut text = String::new();
    match write!(text, "{}", utc.with_timezone(&chrono::Local).format(format)) {
        Ok(_) => Some(text),
        Err(_) => None,
    }
}

/// What stands for each placeholder when the difference `d` sets off the command, `stamp`
/// being its time as text. A deleted path has no time.
pub open spec fn command_values(d: Difference, stamp: Option<Seq<char>>) -> Values {
    match d {
        Difference::Unchanged => Values { diff: Seq::empty(), path: Seq::empty(), mtime: None },
        Difference::Modified { path, mtime } => Values { diff: "modified"@, path, mtime: stamp },
        Difference::New { path, mtime } => Values { diff: "new"@, path, mtime: stamp },
        Difference::Deleted { path } => Values { diff: "deleted"@, path, mtime: None },
    }
}

/// The command that the difference `d` sets off, as a plain value.
pub open spec fn command_text(template: Seq<char>, d: Difference, stamp: Option<Seq<char>>) -> Option<
    Seq<char>,
> {
    if d is Unchanged {
        None
    } else {
        Some(substituted(template, command_values(d, stamp)))
    }
}

/// The text of the string in `o`, where there is one.
pub open spec fn written(o: Option<String>) -> Option<Seq<char>> {
    match o {
        Some(text) => Some(text@),
        None => None,
    }
}

/// The text of `o`, where there is one.
pub open spec fn text_of(o: Option<&str>) -> Option<Seq<char>> {
    match o {
        Some(text) => Some(text@),
        None => None,
    }
}

/// The command that `diff` sets off: `template` with the kind of the difference, its path
/// and `stamp`, the time of the path as text, in the place of their placeholders. No
/// command where nothing changed.
pub fn command_for(template: &str, diff: &FSDifference, stamp: Option<&str>) -> (r: Option<String>)
    ensures
        written(r) == command_text(template@, diff@, text_of(stamp)),
{
    match diff {
        FSDifference::Unchanged => None,
        FSDifference::Modified { path, mtime } => Some(
            substitute(template, "modified", path.as_str(), stamp),
        ),
        FSDifference::New { path, mtime } => Some(substitute(template, "new", path.as_str(), stamp)),
        FSDifference::Deleted { path } => Some(substitute(template, "deleted", path.as_str(), None)),
    }
}

/// Why a watch cannot be set up, if it cannot.
pub open spec fn refusal(explorers: nat, interval: int, sleep: int, cmd: nat) -> Option<Seq<char>> {
    if cmd == 0 {
        Some("No command was given"@)
    } else if interval <= 0 {
        Some("Interval must be a positive number of seconds"@)
    } else if sleep <= 0 {
        Some("Sleep must be a positive number of seconds"@)
    } else if explorers == 0 {
        Some("Empty path discovery list"@)
    } else {
        None
    }
}

/// What to do after a look at the file system.
#[derive(Debug, PartialEq)]
pub enum Action {
    /// Nothing changed: wait, then look again.
    Sleep { nanos: i64 },
    /// Something changed: run the command, wait, then look again.
    Run { difference: FSDifference, command: String, nanos: i64 },
}

/// Main data structure to maintain the state of the JFSWatch application
#[derive(Debug)]
pub struct JFSWatch {
    /// How to discover paths on the file system
    explorers: Vec<PathExplorer>,
    /// How long to wait between non-changing checks before exploring again, in nanoseconds
    interval: i64,
    /// How long to wait after running the command before exploring again, in nanoseconds
    sleep: i64,
    /// The command to run when an explored path changes
    cmd: Vec<String>,
}

/// The sightings as plain values.
pub open spec fn sightings_of(seen: Seq<(String, Option<Timestamp>)>) -> Seq<Sighting> {
    Seq::new(seen.len(), |i: int| (seen[i].0@, seen[i].1))
}

impl JFSWatch {
    /// The words of the command.
    pub closed spec fn command(&self) -> Seq<Seq<char>> {
        self.cmd.deep_view()
    }

    /// The command as one text, its words a blank apart.
    pub open spec fn template(&self) -> Seq<char> {
        joined(self.command(), " "@)
    }

    /// The nanoseconds to wait after a look that showed no change.
    pub closed spec fn interval_nanos(&self) -> int {
        self.interval as int
    }

    /// The nanoseconds to wait after the command has run.
    pub closed spec fn sleep_nanos(&self) -> int {
        self.sleep as int
    }

    /// How many explorers there are.
    pub closed spec fn sources(&self) -> nat {
        self.explorers@.len()
    }

    /// A watch has something to look for, something to run and time to wait.
    pub closed spec fn wf(&self) -> bool {
        refusal(self.explorers@.len(), self.interval as int, self.sleep as int, self.cmd@.len())
            is None
    }

    /// Sets up a watch. `interval` and `sleep` are in nanoseconds.
    ///
    /// Refused are, in this order, an empty command, an interval that is not positive, a
    /// sleep that is not positive and an empty list of explorers.
    pub fn new(explorers: Vec<PathExplorer>, interval: i64, sleep: i64, cmd: Vec<String>) -> (r:
        Result<Self, String>)
        ensures
            match r {
                Ok(watch) => refusal(explorers@.len(), interval as int, sleep as int, cmd@.len())
                    is None && watch.wf() && watch.command() == cmd.deep_view()
                    && watch.interval_nanos() == interval && watch.sleep_nanos() == sleep
                    && watch.sources() == explorers@.len(),
                Err(message) => refusal(explorers@.len(), interval as int, sleep as int, cmd@.len())
                    == Some(message@),
            },
    {
        if cmd.len() == 0 {
            return Err("No command was given".to_owned());
        }
        if interval <= 0 {
            return Err("Interval must be a positive number of seconds".to_owned());
        }
        if sleep <= 0 {
            return Err("Sleep must be a positive number of seconds".to_owned());
        }
        if explorers.len() == 0 {
            return Err("Empty path discovery list".to_owned());
        }
        Ok(JFSWatch { explorers, cmd, interval, sleep })
    }

    /// How long to wait between non-changing checks before exploring again, in nanoseconds
    pub fn interval(&self) -> (r: i64)
        ensures
            r == self.interval_nanos(),
            self.wf() ==> r > 0,
    {
        self.interval
    }

    /// How long to wait after running the command before exploring again, in nanoseconds
    pub fn sleep(&self) -> (r: i64)
        ensures
            r == self.sleep_nanos(),
            self.wf() ==> r > 0,
    {
        self.sleep
    }

    /// How to discover paths on the file system
    pub fn explorers(&self) -> (r: &Vec<PathExplorer>)
        ensures
            r@.len() == self.sources(),
    {
        &self.explorers
    }

    /// Makes the snapshot of one look at the file system from what the explorers saw, in
    /// the order in which they saw it. `prev_size` is the number of paths of the snapshot
    /// before, where there is one.
    pub fn explore(&self, prev_size: Option<usize>, seen: Vec<(String, Option<Timestamp>)>) -> (r:
        WatchedFS)
        ensures
            r.wf(),
            r.facts() == sighted_all(Seq::<Fact>::empty(), sightings_of(seen@)),
    {
        let size = match prev_size {
            Some(size) => size,
            None => self.explorers.len(),
        };
        let mut watched_fs = WatchedFS::new(size);
        let ghost all = sightings_of(seen@);
        for sighting in it: seen
            invariant
                watched_fs.wf(),
                it.seq().len() == all.len(),
                forall|k: int|
                    0 <= k < all.len() ==> ((#[trigger] it.seq()[k]).0@, it.seq()[k].1) == all[k],
                watched_fs.facts() == sighted_all(Seq::<Fact>::empty(), all.take(it.index() as int)),
        {
            proof {
                assert(all.take(it.index() + 1).drop_last() =~= all.take(it.index() as int));
            }
            let (path, mtime) = sighting;
            watched_fs.find(path, mtime);
        }
        assert(all.take(all.len() as int) =~= all);
        watched_fs
    }

    /// Returns the command to run, if a command should run. Substitutes variables where
    /// available:
    /// - $path | ${path}:   the path that changed
    /// - $diff | ${diff}:   new | modified | deleted
    /// - $mtime | ${mtime}: the modified time of the path, in the time zone of the machine
    ///   (note this will not be available for deleted diffs)
    pub fn get_command(&self, diff: &FSDifference) -> (r: Option<String>)
        ensures
            exists|stamp: Option<Seq<char>>|
                written(r) == #[trigger] command_text(self.template(), diff@, stamp),
            diff@ is Deleted || !asks_for_time(self.template()) ==> written(r) == command_text(
                self.template(),
                diff@,
                None,
            ),
    {
        let stamp = match diff {
            FSDifference::Modified { path, mtime } => format_local(
                mtime.secs,
                mtime.nanos,
                LOCAL_DATE_FORMAT,
            ),
            FSDifference::New { path, mtime } => format_local(
                mtime.secs,
                mtime.nanos,
                LOCAL_DATE_FORMAT,
            ),
            _ => None,
        };
        let template = join(&self.cmd, " ");
        let r = match &stamp {
            Some(text) => command_for(template.as_str(), diff, Some(text.as_str())),
            None => command_for(template.as_str(), diff, None),
        };
        proof {
            assert(written(r) == command_text(self.template(), diff@, written(stamp)));
            if !asks_for_time(self.template()) {
                lemma_time_not_asked_for(
                    self.template(),
                    command_values(diff@, written(stamp)),
                    command_values(diff@, None),
                );
            }
        }
        r
    }

    /// One turn of the watch: compares the snapshot just taken with the one before it and
    /// says what to do before the next look.
    pub fn watch(&self, new_fs_watch: &WatchedFS, prev_fs_watch: WatchedFS) -> (r: Action)
        requires
            new_fs_watch.wf(),
            prev_fs_watch.wf(),
        ensures
            match r {
                Action::Sleep { nanos } => new_fs_watch@ == prev_fs_watch@ && nanos
                    == self.interval_nanos(),
                Action::Run { difference: d, command, nanos } => {
                    &&& d@ == difference(
                        new_fs_watch.facts(),
                        new_fs_watch@,
                        prev_fs_watch.facts(),
                        prev_fs_watch@,
                    )
                    &&& new_fs_watch@ != prev_fs_watch@
                    &&& nanos == self.sleep_nanos()
                    &&& exists|stamp: Option<Seq<char>>|
                        Some(command@) == #[trigger] command_text(self.template(), d@, stamp)
                    &&& d@ is Deleted || !asks_for_time(self.template()) ==> Some(command@)
                        == command_text(self.template(), d@, None)
                },
            },
    {
        let changed = new_fs_watch.compare(prev_fs_watch);
        match self.get_command(&changed) {
            None => Action::Sleep { nanos: self.interval },
            Some(command) => Action::Run { difference: changed, command, nanos: self.sleep },
        }
    }
}

/// A deleted path has no time: whatever time is at hand, a placeholder for the time at the
/// start of a text stays as it is written when the path of the difference has gone.
pub proof fn lemma_deleted_keeps_mtime(
    path: Seq<char>,
    stamp: Option<Seq<char>>,
    braced: bool,
    rest: Seq<char>,
)
    ensures
        ({
            let values = command_values(Difference::Deleted { path }, stamp);
            let written = form_of(Placeholder::Mtime, braced);
            substituted(written + rest, values) == written + substituted(rest, values)
        }),
{
    let values = command_values(Difference::Deleted { path }, stamp);
    lemma_placeholder_replaced(Placeholder::Mtime, braced, rest, values);
}

/// A path that is looked for and not there leaves the snapshot empty, so that nothing
/// differs from one look to the next; the look that first finds it differs from the one
/// before in that the path is new.
pub proof fn lemma_path_that_appears(path: Seq<char>, mtime: Timestamp)
    ensures
        sighted_all(Seq::<Fact>::empty(), seq![(path, None::<Timestamp>)]) == Seq::<Fact>::empty(),
        sighted_all(Seq::<Fact>::empty(), seq![(path, Some(mtime))]) == single(path, mtime).0,
        difference(
            Seq::<Fact>::empty(),
            Map::<Seq<char>, Timestamp>::empty(),
            Seq::<Fact>::empty(),
            Map::<Seq<char>, Timestamp>::empty(),
        ) is Unchanged,
        difference(
            single(path, mtime).0,
            single(path, mtime).1,
            Seq::<Fact>::empty(),
            Map::<Seq<char>, Timestamp>::empty(),
        ) == (Difference::New { path, mtime }),
{
    let nothing = Seq::<Fact>::empty();
    let missing: Seq<Sighting> = seq![(path, None::<Timestamp>)];
    let there: Seq<Sighting> = seq![(path, Some(mtime))];
    assert(missing.drop_last() =~= Seq::<Sighting>::empty());
    assert(there.drop_last() =~= Seq::<Sighting>::empty());
    assert(sighted_all(nothing, missing.drop_last()) == nothing);
    assert(sighted_all(nothing, there.drop_last()) == nothing);
    assert(!knows(nothing, path));
    assert(nothing.push((path, mtime)) =~= single(path, mtime).0);
    lemma_single_new(path, mtime);
}

} // verus!
