use crate::data::metrics::{Rate, MICRO};
use vstd::hash_map::StringHashMap;
use vstd::prelude::*;

verus! {

/// How often `path` was touched according to `touches`: paths that are not
/// keys were never touched.
pub open spec fn touch_count(touches: Map<Seq<char>, nat>, path: Seq<char>) -> nat {
    if touches.dom().contains(path) {
        touches[path]
    } else {
        0
    }
}

/// The rate of `touches` touches in a window of `window_days` days.
pub open spec fn rate_from(touches: nat, window_days: usize) -> Rate {
    Rate { micro_touches: (touches * MICRO) as u128, window_days: window_days as u128 }
}

/// Touch counts per path, seen in a window of some days.  Only paths touched
/// at least once are keys.
pub struct FrequencyMap {
    touches: StringHashMap<u64>,
    window_days: usize,
    recorded: u64,
}

impl View for FrequencyMap {
    type V = Map<Seq<char>, nat>;

    /// The touch count of each path that was touched.
    closed spec fn view(&self) -> Map<Seq<char>, nat> {
        Map::new(
            |p: Seq<char>| self.touches@.dom().contains(p),
            |p: Seq<char>| self.touches@[p] as nat,
        )
    }
}

impl FrequencyMap {
    #[verifier::type_invariant]
    closed spec fn inv(&self) -> bool {
        forall|p: Seq<char>| #[trigger]
            self.touches@.dom().contains(p) ==> 1 <= self.touches@[p] <= self.recorded
    }

    /// The length of the window in days.
    pub closed spec fn window(&self) -> usize {
        self.window_days
    }

    /// The number of touches recorded in all.
    pub closed spec fn recorded(&self) -> nat {
        self.recorded as nat
    }

    /// The change rate of `path`: its touches per day of the window, and
    /// zero where the path was never touched.
    pub open spec fn rate_of(&self, path: Seq<char>) -> Rate {
        rate_from(touch_count(self@, path), self.window())
    }

    /// A map without touches, for a window of `window_days` days.
    pub fn new(window_days: usize) -> (map: FrequencyMap)
        ensures
            map@ == Map::<Seq<char>, nat>::empty(),
            map.window() == window_days,
            map.recorded() == 0,
    {
        let map = FrequencyMap { touches: StringHashMap::new(), window_days, recorded: 0 };
        assert(map@ =~= Map::<Seq<char>, nat>::empty());
        map
    }

    /// Whether `touches` more touches can be recorded.
    pub fn has_room(&self, touches: usize) -> (b: bool)
        ensures
            b == (self.recorded() + touches <= u64::MAX),
    {
        touches as u128 <= (u64::MAX - self.recorded) as u128
    }

    /// Counts one more touch of `path`.
    pub fn record_touch(&mut self, path: &str)
        requires
            old(self).recorded() < u64::MAX,
        ensures
            final(self)@ == old(self)@.insert(path@, touch_count(old(self)@, path@) + 1),
            final(self).window() == old(self).window(),
            final(self).recorded() == old(self).recorded() + 1,
    {
        proof {
            use_type_invariant(&*self);
        }
        let count: u64 = match self.touches.get(path) {
            Some(n) => *n,
            None => 0,
        };
        let mut touches: StringHashMap<u64> = StringHashMap::new();
        core::mem::swap(&mut self.touches, &mut touches);
        touches.insert(path.to_owned(), count + 1);
        self.recorded = self.recorded + 1;
        core::mem::swap(&mut self.touches, &mut touches);
        assert(self@ =~= old(self)@.insert(path@, touch_count(old(self)@, path@) + 1));
    }

    /// How often `path` was touched.
    pub fn touches(&self, path: &str) -> (n: u64)
        ensures
            n == touch_count(self@, path@),
    {
        match self.touches.get(path) {
            Some(n) => *n,
            None => 0,
        }
    }

    /// Whether `path` was touched at all.
    pub fn contains(&self, path: &str) -> (b: bool)
        ensures
            b == self@.dom().contains(path@),
    {
        self.touches.contains_key(path)
    }

    /// The change rate of `path`, zero where it was never touched.
    pub fn rate(&self, path: &str) -> (rate: Rate)
        ensures
            rate == self.rate_of(path@),
            self.window() > 0 ==> rate.equals_ratio(
                touch_count(self@, path@) as int,
                self.window() as int,
            ),
    {
        let n = self.touches(path);
        Rate::from_touches(n, self.window_days as u64)
    }

    /// The length of the window in days.
    pub fn window_days(&self) -> (days: usize)
        ensures
            days == self.window(),
    {
        self.window_days
    }

    /// The number of paths that were touched.
    pub fn len(&self) -> (n: usize)
        ensures
            n == self@.dom().len(),
    {
        let n = self.touches.len();
        proof {
            broadcast use vstd::hash_map::group_hash_map_axioms;
            assert(self@.dom() =~= self.touches@.dom());
        }
        n
    }
}

/// One commit as a walk through the history reports it: how many parents it
/// has, and the path that each entry of its diff against the first parent
/// has after the change, where the entry has one.
#[derive(Debug, Clone)]
pub struct CommitRecord {
    pub parent_count: usize,
    pub changed_paths: Vec<Option<String>>,
}

/// How many entries of a diff name `path`.
pub open spec fn occurrences(paths: Seq<Option<String>>, path: Seq<char>) -> nat
    decreases paths.len(),
{
    if paths.len() == 0 {
        0
    } else {
        occurrences(paths.drop_last(), path) + if names(paths.last(), path) {
            1nat
        } else {
            0nat
        }
    }
}

/// Whether an entry of a diff names `path`.
pub open spec fn names(entry: Option<String>, path: Seq<char>) -> bool {
    entry matches Some(s) && s@ == path
}

/// How many entries of a diff name a path at all.
pub open spec fn named_entries(paths: Seq<Option<String>>) -> nat
    decreases paths.len(),
{
    if paths.len() == 0 {
        0
    } else {
        named_entries(paths.drop_last()) + if paths.last() is Some {
            1nat
        } else {
            0nat
        }
    }
}

/// The touch counts after one more diff: every entry that names a path
/// counts one touch of it.
pub open spec fn tally(touches: Map<Seq<char>, nat>, paths: Seq<Option<String>>) -> Map<
    Seq<char>,
    nat,
> {
    Map::new(
        |p: Seq<char>| touch_count(touches, p) + occurrences(paths, p) > 0,
        |p: Seq<char>| touch_count(touches, p) + occurrences(paths, p),
    )
}

/// The number of commits that an analysis over `days` days diffs at most:
/// ten for each day.
pub open spec fn commit_limit(days: usize) -> nat {
    (days * 10) as nat
}

/// Whether a commit is diffed when `diffed` commits were diffed before it:
/// it has a parent, and the limit is not reached.
pub open spec fn is_diffed(commit: CommitRecord, diffed: nat, limit: nat) -> bool {
    commit.parent_count > 0 && diffed < limit
}

/// How many commits of `history`, walked newest first, are diffed.
pub open spec fn diffed_commits(history: Seq<CommitRecord>, limit: nat) -> nat
    decreases history.len(),
{
    if history.len() == 0 {
        0
    } else {
        let before = diffed_commits(history.drop_last(), limit);
        if is_diffed(history.last(), before, limit) {
            before + 1
        } else {
            before
        }
    }
}

/// How often a walk through `history`, newest first, sees `path` touched:
/// the entries that name it in the diffs of the commits that are diffed.
pub open spec fn walk_touches(history: Seq<CommitRecord>, limit: nat, path: Seq<char>) -> nat
    decreases history.len(),
{
    if history.len() == 0 {
        0
    } else {
        let earlier = history.drop_last();
        walk_touches(earlier, limit, path) + if is_diffed(
            history.last(),
            diffed_commits(earlier, limit),
            limit,
        ) {
            occurrences(history.last().changed_paths@, path)
        } else {
            0
        }
    }
}

/// The touch counts that a walk through `history` gives: a key for each path
/// touched at least once.
pub open spec fn walk_tally(history: Seq<CommitRecord>, limit: nat) -> Map<Seq<char>, nat> {
    Map::new(
        |p: Seq<char>| walk_touches(history, limit, p) > 0,
        |p: Seq<char>| walk_touches(history, limit, p),
    )
}

/// The touch counts that the analysis of `history` over `days` days gives.
pub open spec fn analysis(history: Seq<CommitRecord>, days: usize) -> Map<Seq<char>, nat> {
    walk_tally(history, commit_limit(days))
}

/// The number of diff entries in all of `history`.
pub open spec fn total_changes(history: Seq<CommitRecord>) -> nat
    decreases history.len(),
{
    if history.len() == 0 {
        0
    } else {
        total_changes(history.drop_last()) + history.last().changed_paths@.len()
    }
}

/// What the driver of a walk does next.
#[derive(Clone, Copy, Debug, PartialEq, Eq, Structural)]
pub enum WalkAction {
    /// Take the next commit of the history, newest first, and report it.
    ReadCommit,
    /// Diff the commit just reported against its first parent and report
    /// the diff.
    DiffFirstParent,
    /// Stop: the analysis is complete.
    Finish,
}

/// What the driver of a walk reports.
pub enum WalkEvent<'a> {
    /// The next commit has `parent_count` parents.
    Commit { parent_count: usize },
    /// The diff of the commit against its first parent.
    Diff { changed_paths: &'a Vec<Option<String>> },
    /// The history holds no further commit.
    EndOfHistory,
    /// The history, a commit or a tree could not be read.
    Failure,
}

/// The history of the repository was not read to the end of the walk: there
/// is no analysis.
#[derive(Clone, Copy, Debug, PartialEq, Eq, Structural)]
pub struct RepositoryError;

/// The state of a walk, as contracts see it.
pub struct WalkState {
    pub touches: Map<Seq<char>, nat>,
    pub window_days: usize,
    pub recorded: nat,
    pub remaining: nat,
    pub awaiting_diff: bool,
    pub ended: bool,
    pub failed: bool,
}

impl WalkState {
    /// The state in which a walk over `days` days starts.
    pub open spec fn start(days: usize) -> WalkState {
        WalkState {
            touches: Map::empty(),
            window_days: days,
            recorded: 0,
            remaining: commit_limit(days),
            awaiting_diff: false,
            ended: false,
            failed: false,
        }
    }

    /// What the driver is to do in this state.
    pub open spec fn expected(self) -> WalkAction {
        if self.failed || self.ended || self.remaining == 0 {
            WalkAction::Finish
        } else if self.awaiting_diff {
            WalkAction::DiffFirstParent
        } else {
            WalkAction::ReadCommit
        }
    }

    /// The state after `event`.  A commit without parents is passed over; one
    /// with parents is to be diffed; its diff is tallied and uses up one of
    /// the remaining commits.  A failure to read ends the walk as failed.
    /// Any other event that was not asked for changes nothing.
    pub open spec fn next(self, event: WalkEvent) -> WalkState {
        match (self.expected(), event) {
            (WalkAction::ReadCommit, WalkEvent::Failure) => WalkState { failed: true, ..self },
            (WalkAction::DiffFirstParent, WalkEvent::Failure) => WalkState {
                failed: true,
                ..self
            },
            (WalkAction::ReadCommit, WalkEvent::Commit { parent_count }) => WalkState {
                awaiting_diff: parent_count > 0,
                ..self
            },
            (WalkAction::ReadCommit, WalkEvent::EndOfHistory) => WalkState { ended: true, ..self },
            (WalkAction::DiffFirstParent, WalkEvent::Diff { changed_paths }) => WalkState {
                touches: tally(self.touches, changed_paths@),
                recorded: self.recorded + named_entries(changed_paths@),
                remaining: (self.remaining - 1) as nat,
                awaiting_diff: false,
                ..self
            },
            _ => self,
        }
    }

    /// Whether the walk is over and has not failed.
    pub open spec fn completed(self) -> bool {
        !self.failed && (self.ended || self.remaining == 0)
    }

    /// Whether `event` can be taken in within the limits of the counters.
    pub open spec fn admits(self, event: WalkEvent) -> bool {
        self.expected() == WalkAction::DiffFirstParent ==> (event matches WalkEvent::Diff {
            changed_paths,
        } ==> self.recorded + changed_paths@.len() <= u64::MAX)
    }
}

/// A walk through a history in progress.  It decides which commits are
/// diffed and when the walk ends, and tallies the touches; its driver reads
/// the commits and computes the diffs.
pub struct HistoryWalk {
    frequency: FrequencyMap,
    remaining: u128,
    awaiting_diff: bool,
    ended: bool,
    failed: bool,
}

impl View for HistoryWalk {
    type V = WalkState;

    closed spec fn view(&self) -> WalkState {
        WalkState {
            touches: self.frequency@,
            window_days: self.frequency.window(),
            recorded: self.frequency.recorded(),
            remaining: self.remaining as nat,
            awaiting_diff: self.awaiting_diff,
            ended: self.ended,
            failed: self.failed,
        }
    }
}

impl HistoryWalk {
    /// Starts a walk that looks back `days` days.
    pub fn new(days: usize) -> (walk: HistoryWalk)
        ensures
            walk@ == WalkState::start(days),
    {
        HistoryWalk {
            frequency: FrequencyMap::new(days),
            remaining: (days as u128) * 10,
            awaiting_diff: false,
            ended: false,
            failed: false,
        }
    }

    /// What the driver is to do next.
    pub fn expected(&self) -> (action: WalkAction)
        ensures
            action == self@.expected(),
    {
        if self.failed || self.ended || self.remaining == 0 {
            WalkAction::Finish
        } else if self.awaiting_diff {
            WalkAction::DiffFirstParent
        } else {
            WalkAction::ReadCommit
        }
    }

    /// Whether the diff of `entries` entries can be taken in.
    pub fn has_room(&self, entries: usize) -> (b: bool)
        ensures
            b == (self@.recorded + entries <= u64::MAX),
    {
        self.frequency.has_room(entries)
    }

    /// Takes in what the driver reports and says what it is to do next.
    pub fn step(&mut self, event: WalkEvent) -> (action: WalkAction)
        requires
            old(self)@.admits(event),
        ensures
            final(self)@ == old(self)@.next(event),
            action == final(self)@.expected(),
    {
        let expected = self.expected();
        match event {
            WalkEvent::Commit { parent_count } => {
                if expected == WalkAction::ReadCommit {
                    self.awaiting_diff = parent_count > 0;
                }
            },
            WalkEvent::EndOfHistory => {
                if expected == WalkAction::ReadCommit {
                    self.ended = true;
                }
            },
            WalkEvent::Diff { changed_paths } => {
                if expected == WalkAction::DiffFirstParent {
                    self.frequency.record_diff(changed_paths);
                    self.remaining = self.remaining - 1;
                    self.awaiting_diff = false;
                }
            },
            WalkEvent::Failure => {
                if expected != WalkAction::Finish {
                    self.failed = true;
                }
            },
        }
        self.expected()
    }

    /// Ends the walk and hands out the touch counts.  There are none where
    /// the walk has failed or is not over: a part of an analysis is no
    /// analysis.
    pub fn finish(self) -> (result: Result<FrequencyMap, RepositoryError>)
        ensures
            match result {
                Ok(map) => {
                    &&& self@.completed()
                    &&& map@ == self@.touches
                    &&& map.window() == self@.window_days
                    &&& map.recorded() == self@.recorded
                },
                Err(_) => !self@.completed(),
            },
    {
        if self.failed || !(self.ended || self.remaining == 0) {
            Err(RepositoryError)
        } else {
            Ok(self.frequency)
        }
    }
}

impl FrequencyMap {
    /// Counts one touch for every entry of a diff that names a path.
    pub fn record_diff(&mut self, changed_paths: &Vec<Option<String>>)
        requires
            old(self).recorded() + changed_paths@.len() <= u64::MAX,
        ensures
            final(self)@ == tally(old(self)@, changed_paths@),
            final(self).window() == old(self).window(),
            final(self).recorded() == old(self).recorded() + named_entries(changed_paths@),
    {
        proof {
            use_type_invariant(&*self);
        }
        let n = changed_paths.len();
        let mut i: usize = 0;
        while i < n
            invariant
                i <= n,
                n == changed_paths@.len(),
                self.window() == old(self).window(),
                self.recorded() == old(self).recorded() + named_entries(changed_paths@.take(i as int)),
                named_entries(changed_paths@.take(i as int)) <= i,
                old(self).recorded() + n <= u64::MAX,
                forall|p: Seq<char>|
                    touch_count(self@, p) == touch_count(old(self)@, p) + occurrences(
                        changed_paths@.take(i as int),
                        p,
                    ),
            decreases n - i,
        {
            proof {
                assert(changed_paths@.take(i + 1).drop_last() =~= changed_paths@.take(i as int));
            }
            let ghost before = self@;
            match &changed_paths[i] {
                Some(path) => {
                    self.record_touch(path.as_str());
                    assert forall|p: Seq<char>|
                        touch_count(self@, p) == touch_count(old(self)@, p) + occurrences(
                            changed_paths@.take(i + 1),
                            p,
                        ) by {
                        assert(touch_count(before, p) == touch_count(old(self)@, p) + occurrences(
                            changed_paths@.take(i as int),
                            p,
                        ));
                    }
                },
                None => {},
            }
            i += 1;
        }
        proof {
            assert(changed_paths@.take(n as int) =~= changed_paths@);
            use_type_invariant(&*self);
            assert forall|p: Seq<char>| self@.dom().contains(p) <==> tally(
                old(self)@,
                changed_paths@,
            ).dom().contains(p) by {
                assert(touch_count(self@, p) == touch_count(old(self)@, p) + occurrences(
                    changed_paths@,
                    p,
                ));
            }
            assert forall|p: Seq<char>| self@.dom().contains(p) implies self@[p] == tally(
                old(self)@,
                changed_paths@,
            )[p] by {
                assert(touch_count(self@, p) == touch_count(old(self)@, p) + occurrences(
                    changed_paths@,
                    p,
                ));
            }
            assert(self@ =~= tally(old(self)@, changed_paths@));
        }
    }
}

/// A diff names no more paths than it has entries.
pub proof fn lemma_named_entries_bounded(paths: Seq<Option<String>>)
    ensures
        named_entries(paths) <= paths.len(),
    decreases paths.len(),
{
    if paths.len() > 0 {
        lemma_named_entries_bounded(paths.drop_last());
    }
}

/// A longer part of a history holds no fewer diff entries.
pub proof fn lemma_total_changes_monotonic(history: Seq<CommitRecord>, n: int)
    requires
        0 <= n <= history.len(),
    ensures
        total_changes(history.take(n)) <= total_changes(history),
    decreases history.len() - n,
{
    if n == history.len() {
        assert(history.take(n) =~= history);
    } else {
        assert(history.drop_last().take(n) =~= history.take(n));
        lemma_total_changes_monotonic(history.drop_last(), n);
    }
}

/// No more commits are diffed than the limit allows.
pub proof fn lemma_diffed_within_limit(history: Seq<CommitRecord>, limit: nat)
    ensures
        diffed_commits(history, limit) <= limit,
    decreases history.len(),
{
    if history.len() > 0 {
        lemma_diffed_within_limit(history.drop_last(), limit);
    }
}

/// Once the limit is reached, the rest of the history adds nothing.
pub proof fn lemma_walk_ends_at_limit(history: Seq<CommitRecord>, n: int, limit: nat, path: Seq<char>)
    requires
        0 <= n <= history.len(),
        diffed_commits(history.take(n), limit) == limit,
    ensures
        diffed_commits(history, limit) == limit,
        walk_touches(history, limit, path) == walk_touches(history.take(n), limit, path),
    decreases history.len() - n,
{
    if n == history.len() {
        assert(history.take(n) =~= history);
    } else {
        assert(history.drop_last().take(n) =~= history.take(n));
        lemma_walk_ends_at_limit(history.drop_last(), n, limit, path);
    }
}

/// The history of a repository, as far as the analysis reads it: its
/// commits from the head backwards, newest first.
pub struct GitAnalyzer {
    history: Vec<CommitRecord>,
}

impl GitAnalyzer {
    /// The commits, newest first.
    pub closed spec fn history(&self) -> Seq<CommitRecord> {
        self.history@
    }

    /// An analyzer of the given commits, newest first.
    pub fn new(history: Vec<CommitRecord>) -> (analyzer: GitAnalyzer)
        ensures
            analyzer.history() == history@,
    {
        GitAnalyzer { history }
    }

    /// Whether the diffs of the history have no more entries in all than
    /// touches can be counted.
    pub fn within_limits(&self) -> (b: bool)
        ensures
            b == (total_changes(self.history()) <= u64::MAX),
    {
        let n = self.history.len();
        let mut total: u64 = 0;
        let mut i: usize = 0;
        while i < n
            invariant
                i <= n,
                n == self.history@.len(),
                total == total_changes(self.history@.take(i as int)),
                total <= u64::MAX,
            decreases n - i,
        {
            let entries = self.history[i].changed_paths.len();
            proof {
                assert(self.history@.take(i + 1).drop_last() =~= self.history@.take(i as int));
                lemma_total_changes_monotonic(self.history@, i + 1);
            }
            if entries as u128 > (u64::MAX - total) as u128 {
                return false;
            }
            total = total + entries as u64;
            i += 1;
        }
        proof {
            assert(self.history@.take(n as int) =~= self.history@);
        }
        true
    }

    /// How often each file changed, per day, in the last `days` days, where
    /// the touches can be counted.
    pub fn try_analyze_change_frequency(&self, days: usize) -> (map: Option<FrequencyMap>)
        ensures
            match map {
                Some(m) => {
                    &&& total_changes(self.history()) <= u64::MAX
                    &&& m@ == analysis(self.history(), days)
                    &&& m.window() == days
                },
                None => total_changes(self.history()) > u64::MAX,
            },
    {
        if self.within_limits() {
            Some(self.analyze_change_frequency(days))
        } else {
            None
        }
    }

    /// How often each file changed, per day, in the last `days` days: the
    /// walk diffs at most ten commits per day against their first parent,
    /// passes over commits without parents, and counts a touch for each
    /// path that a diff names.
    pub fn analyze_change_frequency(&self, days: usize) -> (map: FrequencyMap)
        requires
            total_changes(self.history()) <= u64::MAX,
        ensures
            map@ == analysis(self.history(), days),
            map.window() == days,
    {
        let ghost limit = commit_limit(days);
        let ghost history = self.history@;
        let mut walk = HistoryWalk::new(days);
        let mut action = walk.expected();
        let n = self.history.len();
        let mut i: usize = 0;
        proof {
            assert(walk@.touches =~= walk_tally(history.take(0), limit));
        }
        while i < n && action != WalkAction::Finish
            invariant
                i <= n,
                n == history.len(),
                history == self.history@,
                limit == commit_limit(days),
                total_changes(history) <= u64::MAX,
                action == walk@.expected(),
                walk@.touches == walk_tally(history.take(i as int), limit),
                walk@.remaining + diffed_commits(history.take(i as int), limit) == limit,
                walk@.recorded <= total_changes(history.take(i as int)),
                walk@.window_days == days,
                !walk@.awaiting_diff,
                !walk@.ended,
                !walk@.failed,
            decreases n - i,
        {
            let commit = &self.history[i];
            let ghost before = walk@;
            let ghost seen = history.take(i as int);
            let ghost next = history.take(i + 1);
            proof {
                assert(next.drop_last() =~= seen);
                assert(next.last() == *commit);
                lemma_total_changes_monotonic(history, i + 1);
                lemma_named_entries_bounded(commit.changed_paths@);
            }
            action = walk.step(WalkEvent::Commit { parent_count: commit.parent_count });
            if action == WalkAction::DiffFirstParent {
                action = walk.step(WalkEvent::Diff { changed_paths: &commit.changed_paths });
                proof {
                    assert(is_diffed(*commit, diffed_commits(seen, limit), limit));
                    assert forall|p: Seq<char>| touch_count(before.touches, p) == walk_touches(
                        seen,
                        limit,
                        p,
                    ) by {}
                    assert(walk@.touches =~= walk_tally(next, limit));
                }
            } else {
                proof {
                    assert(!is_diffed(*commit, diffed_commits(seen, limit), limit));
                    assert(walk@.touches =~= walk_tally(next, limit));
                }
            }
            i += 1;
        }
        proof {
            if i < n {
                lemma_diffed_within_limit(history.take(i as int), limit);
                assert forall|p: Seq<char>| walk_touches(history, limit, p) == walk_touches(
                    history.take(i as int),
                    limit,
                    p,
                ) by {
                    lemma_walk_ends_at_limit(history, i as int, limit, p);
                }
            } else {
                assert(history.take(i as int) =~= history);
            }
            assert(walk@.touches =~= analysis(history, days));
        }
        walk.step(WalkEvent::EndOfHistory);
        match walk.finish() {
            Ok(map) => map,
            Err(_) => unreached(),
        }
    }
}

/// The commits of `history` that have a parent, in their order.
pub open spec fn without_roots(history: Seq<CommitRecord>) -> Seq<CommitRecord>
    decreases history.len(),
{
    if history.len() == 0 {
        history
    } else if history.last().parent_count > 0 {
        without_roots(history.drop_last()).push(history.last())
    } else {
        without_roots(history.drop_last())
    }
}

/// Commits without parents contribute no touch to any path: the walk gives
/// for every path what it gives with those commits taken out of the history.
pub proof fn law_commits_without_parents_count_nothing(
    history: Seq<CommitRecord>,
    limit: nat,
    path: Seq<char>,
)
    ensures
        diffed_commits(history, limit) == diffed_commits(without_roots(history), limit),
        walk_touches(history, limit, path) == walk_touches(without_roots(history), limit, path),
    decreases history.len(),
{
    if history.len() > 0 {
        let earlier = history.drop_last();
        law_commits_without_parents_count_nothing(earlier, limit, path);
        if history.last().parent_count > 0 {
            let kept = without_roots(earlier).push(history.last());
            assert(kept.drop_last() =~= without_roots(earlier));
            assert(kept.last() == history.last());
        }
    }
}

/// A history of commits without parents touches no path at all.
pub proof fn law_history_of_roots_is_untouched(history: Seq<CommitRecord>, days: usize)
    requires
        forall|i: int| 0 <= i < history.len() ==> history[i].parent_count == 0,
    ensures
        analysis(history, days) == Map::<Seq<char>, nat>::empty(),
{
    assert forall|p: Seq<char>| walk_touches(history, commit_limit(days), p) == 0 by {
        lemma_roots_only(history, commit_limit(days), p);
    }
    assert(analysis(history, days) =~= Map::<Seq<char>, nat>::empty());
}

proof fn lemma_roots_only(history: Seq<CommitRecord>, limit: nat, path: Seq<char>)
    requires
        forall|i: int| 0 <= i < history.len() ==> history[i].parent_count == 0,
    ensures
        walk_touches(history, limit, path) == 0,
    decreases history.len(),
{
    if history.len() > 0 {
        lemma_roots_only(history.drop_last(), limit, path);
    }
}

/// How many commits of `history` have a parent.
pub open spec fn commits_with_parents(history: Seq<CommitRecord>) -> nat
    decreases history.len(),
{
    if history.len() == 0 {
        0
    } else {
        commits_with_parents(history.drop_last()) + if history.last().parent_count > 0 {
            1nat
        } else {
            0nat
        }
    }
}

/// How many commits of `history` have a parent and a diff that names `path`.
pub open spec fn touching_commits(history: Seq<CommitRecord>, path: Seq<char>) -> nat
    decreases history.len(),
{
    if history.len() == 0 {
        0
    } else {
        touching_commits(history.drop_last(), path) + if history.last().parent_count > 0
            && occurrences(history.last().changed_paths@, path) > 0 {
            1nat
        } else {
            0nat
        }
    }
}

/// Where the limit covers every commit that has a parent, and no diff of
/// such a commit names `path` twice, the change rate of `path` is exactly the number of commits
/// touching it, divided by the days of the window.
pub proof fn law_rate_is_touching_commits_per_day(
    history: Seq<CommitRecord>,
    days: usize,
    path: Seq<char>,
)
    requires
        days > 0,
        commits_with_parents(history) <= commit_limit(days),
        touching_commits(history, path) <= u64::MAX,
        forall|i: int|
            0 <= i < history.len() && (#[trigger] history[i]).parent_count > 0 ==> occurrences(
                history[i].changed_paths@,
                path,
            ) <= 1,
    ensures
        touch_count(analysis(history, days), path) == touching_commits(history, path),
        rate_from(touch_count(analysis(history, days), path), days).equals_ratio(
            touching_commits(history, path) as int,
            days as int,
        ),
{
    let k = touching_commits(history, path);
    lemma_walk_within_limit(history, commit_limit(days), path);
    assert(k * 1_000_000 * days == k * (days * 1_000_000)) by (nonlinear_arith);
    assert(k * 1_000_000 <= 0xffff_ffff_ffff_ffff * 1_000_000) by (nonlinear_arith)
        requires
            k <= 0xffff_ffff_ffff_ffff,
    ;
}

proof fn lemma_walk_within_limit(history: Seq<CommitRecord>, limit: nat, path: Seq<char>)
    requires
        commits_with_parents(history) <= limit,
        forall|i: int|
            0 <= i < history.len() && (#[trigger] history[i]).parent_count > 0 ==> occurrences(
                history[i].changed_paths@,
                path,
            ) <= 1,
    ensures
        diffed_commits(history, limit) == commits_with_parents(history),
        walk_touches(history, limit, path) == touching_commits(history, path),
    decreases history.len(),
{
    if history.len() > 0 {
        let earlier = history.drop_last();
        assert forall|i: int| 0 <= i < earlier.len() && (
        #[trigger] earlier[i]).parent_count > 0 implies occurrences(
            earlier[i].changed_paths@,
            path,
        ) <= 1 by {
            assert(earlier[i] == history[i]);
        }
        lemma_walk_within_limit(earlier, limit, path);
        let last = history[history.len() - 1];
        assert(last.parent_count > 0 ==> occurrences(last.changed_paths@, path) <= 1);
    }
}

} // verus!
