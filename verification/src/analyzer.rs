//! Per-repository commit statistics: what one commit contributes, and how
//! the commits of a history add up to activity per day and author.

use crate::calendar::{has_local_day, utc_day_of, Date, TimeWindow, EPOCH_DAY, MAX_DAY};
use crate::ledger::{
    accumulate, activity_at, all_fit, credited, lemma_accumulate_keys, lemma_accumulate_overflow,
    lemma_accumulate_step, row_of, Ledger, Rank, RowKey,
};
use vstd::prelude::*;
use vstd::string::StringExecFns;

verus! {

/// What a `DayStats` stands for: two counts that no machine word bounds.
pub struct Activity {
    pub commits: nat,
    pub lines_changed: nat,
}

impl Activity {
    /// No commits and no lines.
    pub open spec fn zero() -> Activity {
        Activity { commits: 0, lines_changed: 0 }
    }

    /// The sum of two activities, count by count.
    pub open spec fn plus(self, other: Activity) -> Activity {
        Activity {
            commits: self.commits + other.commits,
            lines_changed: self.lines_changed + other.lines_changed,
        }
    }

    /// Whether both counts can be held in a `DayStats`.
    pub open spec fn fits(self) -> bool {
        self.commits <= usize::MAX && self.lines_changed <= usize::MAX
    }
}

/// Commit activity attributed to one key: how many commits, and how many
/// lines they inserted or deleted.
#[derive(Debug, Clone, Copy, PartialEq, Eq, Structural)]
pub struct DayStats {
    pub commits: usize,
    pub lines_changed: usize,
}

impl View for DayStats {
    type V = Activity;

    open spec fn view(&self) -> Activity {
        Activity { commits: self.commits as nat, lines_changed: self.lines_changed as nat }
    }
}

impl Default for DayStats {
    fn default() -> (s: DayStats)
        ensures
            s@ == Activity::zero(),
    {
        DayStats { commits: 0, lines_changed: 0 }
    }
}

impl DayStats {
    /// The sum of two statistics, unless one of its counts is more than a
    /// `usize` holds.
    pub fn checked_add(&self, other: &DayStats) -> (r: Option<DayStats>)
        ensures
            r is Some <==> self@.plus(other@).fits(),
            r matches Some(s) ==> s@ == self@.plus(other@),
    {
        match self.commits.checked_add(other.commits) {
            Some(commits) => match self.lines_changed.checked_add(other.lines_changed) {
                Some(lines_changed) => Some(DayStats { commits, lines_changed }),
                None => None,
            },
            None => None,
        }
    }
}

/// The key of a repository's statistics: a calendar day and the display
/// name of an author.
#[derive(Clone, Debug, PartialEq, Eq)]
pub struct AuthorDay {
    pub date: Date,
    pub author: String,
}

impl View for AuthorDay {
    type V = (int, Seq<char>);

    open spec fn view(&self) -> (int, Seq<char>) {
        (self.date@, self.author@)
    }
}

impl RowKey for AuthorDay {
    open spec fn rank(model: (int, Seq<char>)) -> Rank {
        (model.0, Seq::<char>::empty(), model.1)
    }

    proof fn lemma_rank_injective(a: (int, Seq<char>), b: (int, Seq<char>)) {
    }

    fn rank_day(&self) -> (d: i32) {
        self.date.days_from_ce()
    }

    fn rank_project(&self) -> (p: &str) {
        let p = "";
        proof {
            reveal_strlit("");
            assert(p@ =~= Seq::<char>::empty());
        }
        p
    }

    fn rank_author(&self) -> (a: &str) {
        self.author.as_str()
    }
}

/// Activity per day and author in one repository.
pub type RepoStats = Ledger<AuthorDay>;

/// The size of a tree diff: the lines it inserts and the lines it deletes.
#[derive(Clone, Copy, Debug, PartialEq, Eq, Structural)]
pub struct DiffSize {
    pub insertions: usize,
    pub deletions: usize,
}

/// The tree that a commit's tree is compared with to measure the commit.
#[derive(Clone, Copy, Debug, PartialEq, Eq, Structural)]
pub enum DiffBase {
    /// The empty tree: every line of the commit's tree counts as changed.
    EmptyTree,
    /// The tree of the commit's first parent, whatever other parents it has.
    FirstParent,
}

/// The base for measuring a commit with `parent_count` parents: the empty
/// tree for a root commit, else the first parent alone.
pub open spec fn diff_base_of(parent_count: nat) -> DiffBase {
    if parent_count == 0 {
        DiffBase::EmptyTree
    } else {
        DiffBase::FirstParent
    }
}

/// The base for measuring a commit with `parent_count` parents.
pub fn diff_base(parent_count: usize) -> (base: DiffBase)
    ensures
        base == diff_base_of(parent_count as nat),
        parent_count == 0 <==> base == DiffBase::EmptyTree,
        parent_count >= 1 <==> base == DiffBase::FirstParent,
{
    if parent_count == 0 {
        DiffBase::EmptyTree
    } else {
        DiffBase::FirstParent
    }
}

/// A commit with parents is measured against its first parent, however many
/// others it has; only a commit without parents is measured against the
/// empty tree.
pub proof fn lemma_first_parent_only(parent_count: nat, other_count: nat)
    requires
        parent_count >= 1,
        other_count >= 1,
    ensures
        diff_base_of(parent_count) == DiffBase::FirstParent,
        diff_base_of(parent_count) == diff_base_of(other_count),
        diff_base_of(0) == DiffBase::EmptyTree,
{
}

/// One commit as the walk over a history reads it.
#[derive(Clone, Debug, PartialEq, Eq)]
pub struct CommitRecord {
    /// The commit's time as a local calendar day.
    pub date: Date,
    /// The author's display name, where the commit gives one.
    pub author: Option<String>,
    /// The commit's diff against its base, where it could be computed.
    pub diff: Option<DiffSize>,
}

/// The name under which a commit is counted: its author's display name, or
/// "Unknown" where it has none.
pub open spec fn author_name(author: Option<String>) -> Seq<char> {
    match author {
        Some(name) => name@,
        None => "Unknown"@,
    }
}

/// The lines that a commit changed: the insertions and deletions of its
/// diff, or none where the diff could not be computed.
pub open spec fn lines_of(diff: Option<DiffSize>) -> nat {
    match diff {
        Some(size) => (size.insertions + size.deletions) as nat,
        None => 0,
    }
}

/// The key under which a commit is counted.
pub open spec fn commit_key(c: CommitRecord) -> (int, Seq<char>) {
    (c.date@, author_name(c.author))
}

/// What one commit adds to its key: one commit and its changed lines.
pub open spec fn contribution(c: CommitRecord) -> Activity {
    Activity { commits: 1, lines_changed: lines_of(c.diff) }
}

/// The commits as entries: each commit's key with what it contributes.
pub open spec fn entries_of(commits: Seq<CommitRecord>) -> Seq<((int, Seq<char>), Activity)> {
    Seq::new(commits.len(), |i: int| (commit_key(commits[i]), contribution(commits[i])))
}

/// The activity of a sequence of commits, each counted under its key.
pub open spec fn tally(commits: Seq<CommitRecord>) -> Map<(int, Seq<char>), Activity> {
    accumulate(entries_of(commits))
}

/// How many commits a walk visits before it ends: the index of the first
/// commit dated before day `start`, or the number of commits if there is
/// none.
pub open spec fn cutoff(commits: Seq<CommitRecord>, start: int) -> int
    decreases commits.len(),
{
    if commits.len() == 0 || commits[0].date@ < start {
        0
    } else {
        1 + cutoff(commits.drop_first(), start)
    }
}

/// The commits that a walk visits: those before the first one dated before
/// day `start`.
pub open spec fn visited(commits: Seq<CommitRecord>, start: int) -> Seq<CommitRecord> {
    commits.take(cutoff(commits, start))
}

/// The walk ends at the first commit dated before `start`, and nowhere
/// before it.
pub proof fn lemma_cutoff(commits: Seq<CommitRecord>, start: int)
    ensures
        0 <= cutoff(commits, start) <= commits.len(),
        forall|j: int| 0 <= j < cutoff(commits, start) ==> (#[trigger] commits[j]).date@ >= start,
        cutoff(commits, start) < commits.len() ==> commits[cutoff(commits, start)].date@ < start,
    decreases commits.len(),
{
    if commits.len() == 0 || commits[0].date@ < start {
    } else {
        let rest = commits.drop_first();
        lemma_cutoff(rest, start);
        assert forall|j: int| 0 <= j < cutoff(commits, start) implies (#[trigger] commits[j]).date@
            >= start by {
            if j > 0 {
                assert(commits[j] == rest[j - 1]);
            }
        }
        if cutoff(commits, start) < commits.len() {
            assert(commits[cutoff(commits, start)] == rest[cutoff(rest, start)]);
        }
    }
}

/// A place at which the walk may end is the place at which it ends.
pub proof fn lemma_cutoff_unique(commits: Seq<CommitRecord>, start: int, n: int)
    requires
        0 <= n <= commits.len(),
        forall|j: int| 0 <= j < n ==> (#[trigger] commits[j]).date@ >= start,
        n < commits.len() ==> commits[n].date@ < start,
    ensures
        cutoff(commits, start) == n,
{
    lemma_cutoff(commits, start);
    let c = cutoff(commits, start);
    if c < n {
        assert(commits[c].date@ >= start);
    } else if n < c {
        assert(commits[n].date@ >= start);
    }
}

/// Nothing is counted for a day before the start of the walk's window.
pub proof fn lemma_analysis_within_window(commits: Seq<CommitRecord>, start: int)
    ensures
        forall|k: (int, Seq<char>)| #[trigger]
            tally(visited(commits, start)).contains_key(k) ==> k.0 >= start,
{
    lemma_cutoff(commits, start);
    let seen = visited(commits, start);
    assert forall|k: (int, Seq<char>)| #[trigger] tally(seen).contains_key(k) implies k.0
        >= start by {
        lemma_accumulate_keys(entries_of(seen), k);
        let j = row_of(entries_of(seen), k);
        assert(seen[j] == commits[j]);
    }
}

/// What the next commit of a walk asks for.
#[derive(Clone, Copy, Debug, PartialEq, Eq, Structural)]
pub enum WalkAction {
    /// The commit is dated before the window: the walk is over.
    Stop,
    /// The commit is to be measured against this base and then recorded.
    Measure(DiffBase),
}

/// What became of a commit that was handed to a walk.
#[derive(Clone, Copy, Debug, PartialEq, Eq, Structural)]
pub enum Recorded {
    /// The commit was counted.
    Counted,
    /// The commit is dated before the window and was not counted.
    OutOfWindow,
    /// Counting the commit would take a count past what a `usize` holds; it
    /// was not counted.
    Overflow,
}

/// The name under which a commit is counted.
pub fn author_or_unknown(author: &Option<String>) -> (name: String)
    ensures
        name@ == author_name(*author),
{
    match author {
        Some(name) => name.clone(),
        None => String::from_str("Unknown"),
    }
}

/// The lines that a commit changed, unless they are more than a `usize`
/// holds.
pub fn lines_changed(diff: &Option<DiffSize>) -> (lines: Option<usize>)
    ensures
        lines is Some <==> lines_of(*diff) <= usize::MAX,
        lines matches Some(n) ==> n == lines_of(*diff),
{
    match diff {
        Some(size) => size.insertions.checked_add(size.deletions),
        None => Some(0),
    }
}

/// A walk over a history, most recent commit first, that counts the commits
/// of a window and ends at the first commit dated before it.
pub struct Walk {
    start: Date,
    stats: RepoStats,
}

impl Walk {
    #[verifier::type_invariant]
    spec fn within_window(self) -> bool {
        forall|k: (int, Seq<char>)| #[trigger] self.stats@.contains_key(k) ==> k.0 >= self.start@
    }

    /// Day number of the first day of the window.
    pub closed spec fn first_day(&self) -> int {
        self.start@
    }

    /// The activity counted so far.
    pub closed spec fn counted(&self) -> Map<(int, Seq<char>), Activity> {
        self.stats@
    }

    /// A walk for the window that starts on `start`, with nothing counted.
    pub fn begin(start: Date) -> (walk: Walk)
        ensures
            walk.first_day() == start@,
            walk.counted() == Map::<(int, Seq<char>), Activity>::empty(),
    {
        Walk { start, stats: Ledger::new() }
    }

    /// What to do with the next commit of the walk, dated `date` and with
    /// `parent_count` parents: stop if it is dated before the window, else
    /// measure it against the base that its parents call for.
    pub fn next_action(&self, date: &Date, parent_count: usize) -> (action: WalkAction)
        ensures
            date@ < self.first_day() ==> action == WalkAction::Stop,
            date@ >= self.first_day() ==> action == WalkAction::Measure(
                diff_base_of(parent_count as nat),
            ),
    {
        if date.is_before(&self.start) {
            WalkAction::Stop
        } else {
            WalkAction::Measure(diff_base(parent_count))
        }
    }

    /// Counts `commit` under its day and author, unless it is dated before
    /// the window or a count would pass what a `usize` holds; then nothing
    /// changes.
    pub fn record(&mut self, commit: &CommitRecord) -> (r: Recorded)
        ensures
            final(self).first_day() == old(self).first_day(),
            r == Recorded::OutOfWindow <==> commit.date@ < old(self).first_day(),
            r == Recorded::Overflow <==> commit.date@ >= old(self).first_day() && !activity_at(
                old(self).counted(),
                commit_key(*commit),
            ).plus(contribution(*commit)).fits(),
            r == Recorded::Counted ==> final(self).counted() == credited(
                old(self).counted(),
                commit_key(*commit),
                contribution(*commit),
            ),
            r != Recorded::Counted ==> final(self).counted() == old(self).counted(),
    {
        proof {
            use_type_invariant(&*self);
        }
        if commit.date.is_before(&self.start) {
            return Recorded::OutOfWindow;
        }
        let lines = match lines_changed(&commit.diff) {
            Some(n) => n,
            None => {
                return Recorded::Overflow;
            },
        };
        let key = AuthorDay { date: commit.date, author: author_or_unknown(&commit.author) };
        let mut stats = Ledger::new();
        std::mem::swap(&mut stats, &mut self.stats);
        let ok = stats.credit(key, DayStats { commits: 1, lines_changed: lines });
        self.stats = stats;
        if ok {
            Recorded::Counted
        } else {
            Recorded::Overflow
        }
    }

    /// The statistics of the commits counted. None of them is for a day
    /// before the window.
    pub fn finish(self) -> (stats: RepoStats)
        ensures
            stats@ == self.counted(),
            forall|k: (int, Seq<char>)| #[trigger] stats@.contains_key(k) ==> k.0 >= self.first_day(),
    {
        proof {
            use_type_invariant(&self);
        }
        self.stats
    }
}

/// What a repository's history looks like from its head.
pub enum History {
    /// The head cannot be resolved: the repository has no commits yet.
    NoHead,
    /// The commits reachable from the head, most recent first.
    Commits(Vec<CommitRecord>),
}

/// The activity that a history shows from day `start` on: nothing without a
/// head, else the tally of the commits visited.
pub open spec fn analysis(history: History, start: int) -> Map<(int, Seq<char>), Activity> {
    match history {
        History::NoHead => Map::empty(),
        History::Commits(commits) => tally(visited(commits@, start)),
    }
}

/// Whether the history has no head or no commits.
pub open spec fn is_bare(history: History) -> bool {
    match history {
        History::NoHead => true,
        History::Commits(commits) => commits@.len() == 0,
    }
}

/// A history without a head or without commits shows no activity.
pub proof fn lemma_analysis_of_nothing(history: History, start: int)
    requires
        is_bare(history),
    ensures
        analysis(history, start) == Map::<(int, Seq<char>), Activity>::empty(),
{
    match history {
        History::NoHead => {},
        History::Commits(commits) => {
            lemma_cutoff(commits@, start);
        },
    }
}

/// The activity per day and author that `history` shows in `window`: the
/// commits are visited most recent first up to the first one dated before
/// the window, and each is counted once, with the lines of its diff. `None`
/// only where a count is more than a `usize` holds.
pub fn analyze_repo(history: &History, window: &TimeWindow) -> (r: Option<RepoStats>)
    ensures
        r is Some <==> all_fit(analysis(*history, window.first_day())),
        r matches Some(stats) ==> stats@ == analysis(*history, window.first_day()),
        r matches Some(stats) ==> forall|k: (int, Seq<char>)| #[trigger]
            stats@.contains_key(k) ==> k.0 >= window.first_day(),
        is_bare(*history) ==> (r matches Some(stats) && stats@ == Map::<
            (int, Seq<char>),
            Activity,
        >::empty()),
{
    let ghost start = window.first_day();
    proof {
        lemma_analysis_within_window(
            match history {
                History::NoHead => Seq::empty(),
                History::Commits(commits) => commits@,
            },
            start,
        );
        if is_bare(*history) {
            lemma_analysis_of_nothing(*history, start);
        }
    }
    let commits = match history {
        History::NoHead => {
            return Some(Ledger::new());
        },
        History::Commits(commits) => commits,
    };
    let mut walk = Walk::begin(window.start());
    let mut i: usize = 0;
    while i < commits.len()
        invariant
            i <= commits.len(),
            *history == History::Commits(*commits),
            start == window.first_day(),
            walk.first_day() == start,
            walk.counted() == tally(commits@.take(i as int)),
            forall|j: int| 0 <= j < i ==> (#[trigger] commits@[j]).date@ >= start,
        decreases commits.len() - i,
    {
        let ghost seen = commits@.take(i as int);
        match walk.record(&commits[i]) {
            Recorded::OutOfWindow => {
                let stats = walk.finish();
                proof {
                    lemma_cutoff_unique(commits@, start, i as int);
                    stats.lemma_all_fit();
                }
                return Some(stats);
            },
            Recorded::Overflow => {
                proof {
                    lemma_cutoff(commits@, start);
                    let n = cutoff(commits@, start);
                    if n <= i {
                        assert(commits@[n].date@ >= start);
                    }
                    let all = entries_of(commits@.take(n));
                    assert(all.take(i as int) =~= entries_of(seen));
                    assert(all.take(n) =~= all);
                    lemma_accumulate_overflow(all, i as int, n);
                }
                return None;
            },
            Recorded::Counted => {
                proof {
                    let next = entries_of(commits@.take(i + 1));
                    assert(next.take(i as int) =~= entries_of(seen));
                    assert(next.take(i + 1) =~= next);
                    lemma_accumulate_step(next, i as int);
                }
            },
        }
        i += 1;
    }
    let stats = walk.finish();
    proof {
        lemma_cutoff_unique(commits@, start, i as int);
        assert(commits@.take(i as int) =~= commits@);
        stats.lemma_all_fit();
    }
    Some(stats)
}

/// The day under which a commit is counted, given the local day of its
/// instant, if it has one, and the day that the clock shows: the first where
/// there is one, else the second.
pub fn local_day_or(local: Option<Date>, today: Date) -> (day: Date)
    ensures
        day@ == (match local {
            Some(d) => d@,
            None => today@,
        }),
{
    match local {
        Some(d) => d,
        None => today,
    }
}

/// The local calendar day of a commit made `seconds` after the epoch: the
/// day on which that instant falls in UTC, or the day before or after it,
/// as the machine's time zone has it. For an instant that has no such day,
/// the day that the machine's clock shows, which is no earlier than the day
/// before the epoch's.
pub fn time_to_date(seconds: i64) -> (day: Date)
    ensures
        has_local_day(seconds as int) ==> utc_day_of(seconds as int) - 1 <= day@ <= utc_day_of(
            seconds as int,
        ) + 1,
        !has_local_day(seconds as int) ==> EPOCH_DAY - 1 <= day@ <= MAX_DAY,
{
    local_day_or(Date::of_timestamp(seconds), Date::today())
}

} // verus!
