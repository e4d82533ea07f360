//! The sync dashboard's state machine: it takes in the worker's messages and the
//! user's decisions, and says which phase the sync is in.

use vstd::prelude::*;
use vstd::string::*;

use crate::engine::{Plan, Stats};
use crate::message::Message;
use crate::path::{components, same_path, PathBuf};
use crate::store::Config;
use crate::text::{self, decimal, lossy_text};

verus! {

/// Where the dashboard currently is.
#[derive(Debug, Clone, Copy, PartialEq, Eq, Structural)]
pub enum Phase {
    /// Walking the source and destinations, building one plan per destination.
    Scanning,
    /// Browsing the diff, awaiting confirmation.
    Review,
    /// Writing the planned changes into the destinations.
    Applying,
    /// Finished: showing the summary.
    Done,
    /// A worker error: showing the error screen.
    Error,
}

/// Options of a run.
#[derive(Debug, Clone, Copy, PartialEq, Eq, Structural)]
pub struct RunOptions {
    /// Preview only: validate and plan, but write nothing.
    pub dry_run: bool,
    /// Skip the review and apply immediately.
    pub yes: bool,
    /// Delete destination entries that no longer exist in the source.
    pub delete: bool,
}

impl Default for RunOptions {
    fn default() -> (res: RunOptions)
        ensures
            res == (RunOptions { dry_run: false, yes: false, delete: false }),
    {
        RunOptions { dry_run: false, yes: false, delete: false }
    }
}

/// One destination's plan.
#[derive(Debug)]
pub struct DestPlan {
    pub destination: PathBuf,
    pub plan: Plan,
}

impl Clone for DestPlan {
    fn clone(&self) -> (res: DestPlan)
        ensures
            res.destination@ == self.destination@,
            res.plan.acts() == self.plan.acts(),
            res.plan.stats == self.plan.stats,
    {
        DestPlan { destination: self.destination.clone(), plan: self.plan.clone() }
    }
}

/// How far applying has come at one destination.
#[derive(Debug)]
pub struct Progress {
    pub destination: PathBuf,
    pub done: usize,
    pub total: usize,
}

/// What a [`Progress`] says, with its path as plain bytes.
pub struct Mark {
    pub destination: Seq<u8>,
    pub done: usize,
    pub total: usize,
}

impl View for Progress {
    type V = Mark;

    open spec fn view(&self) -> Mark {
        Mark { destination: self.destination@, done: self.done, total: self.total }
    }
}

/// The progress records of a list, with their paths as plain bytes.
pub open spec fn marks(s: Seq<Progress>) -> Seq<Mark> {
    s.map_values(|p: Progress| p@)
}

/// The position of a destination's record, or -1.
pub open spec fn mark_position(s: Seq<Mark>, destination: Seq<u8>) -> int
    decreases s.len(),
{
    if s.len() == 0 {
        -1
    } else if same_path(s.last().destination, destination) {
        s.len() - 1
    } else {
        mark_position(s.drop_last(), destination)
    }
}

/// The records after a report: in place of the destination's record, or at the end.
pub open spec fn marked(s: Seq<Mark>, m: Mark) -> Seq<Mark> {
    let p = mark_position(s, m.destination);
    if p >= 0 {
        s.update(p, m)
    } else {
        s.push(m)
    }
}

/// The actions done, over all records.
pub open spec fn done_total(s: Seq<Mark>) -> nat
    decreases s.len(),
{
    if s.len() == 0 {
        0
    } else {
        done_total(s.drop_last()) + s.last().done as nat
    }
}

/// The actions of all plans.
pub open spec fn action_total(plans: Seq<DestPlan>) -> nat
    decreases plans.len(),
{
    if plans.len() == 0 {
        0
    } else {
        action_total(plans.drop_last()) + plans.last().plan.acts().len()
    }
}

/// The rows of the review list: one for each destination and one for each action.
pub open spec fn line_total(plans: Seq<DestPlan>) -> nat {
    plans.len() + action_total(plans)
}

/// Whether no plan has an action.
pub open spec fn all_empty(plans: Seq<DestPlan>) -> bool {
    forall|i: int| 0 <= i < plans.len() ==> (#[trigger] plans[i]).plan.acts().len() == 0
}

/// Top-level dashboard state.
#[derive(Debug)]
pub struct App {
    pub config: Config,
    pub opts: RunOptions,
    pub phase: Phase,
    /// One plan per destination, in arrival order.
    pub plans: Vec<DestPlan>,
    /// One record per destination.
    pub apply_progress: Vec<Progress>,
    /// Totals, set once the sync (or preview) finishes.
    pub stats: Option<Stats>,
    /// First visible row in the review list.
    pub review_scroll: usize,
    /// One-line footer status.
    pub status: String,
    /// Set on a worker error.
    pub error: Option<String>,
    pub should_quit: bool,
}

/// The hint that the review shows.
pub open spec fn hint_text(app: App) -> Seq<char> {
    decimal(action_total(app.plans@)) + " change(s) across "@ + decimal(
        app.config.destinations@.len(),
    ) + " destination(s).  [Enter/y] "@ + (if app.opts.dry_run {
        "preview"@
    } else {
        "apply"@
    }) + "   [q] cancel"@
}

/// What becomes of a state `before` in which every destination has a plan.
pub open spec fn scanning_finished(before: App, after: App) -> bool {
    if all_empty(before.plans@) {
        &&& after == (App {
            stats: Some(
                Stats { create_dirs: 0, copies: 0, overwrites: 0, deletes: 0, bytes: 0 },
            ),
            phase: Phase::Done,
            status: after.status,
            ..before
        })
        &&& after.status@ == "Already up to date — nothing to sync."@
    } else if before.opts.yes {
        &&& after == (App { phase: Phase::Applying, status: after.status, ..before })
        &&& after.status@ == "Applying…"@
    } else {
        &&& after == (App { phase: Phase::Review, status: after.status, ..before })
        &&& after.status@ == hint_text(before)
    }
}

/// What a message makes of the state.
pub open spec fn handled(before: App, msg: Message, after: App) -> bool {
    match msg {
        Message::Scanned { root, count } => {
            &&& after == (App { status: after.status, ..before })
            &&& after.status@ == "Scanned "@ + lossy_text(root@) + " ("@ + decimal(count as nat)
                + " entries)…"@
        },
        Message::Planned { destination, plan } => {
            &&& after.plans@ == before.plans@.push(DestPlan { destination, plan })
            &&& if after.plans@.len() >= before.config.destinations@.len() {
                scanning_finished(App { plans: after.plans, ..before }, after)
            } else {
                after == (App { plans: after.plans, ..before })
            }
        },
        Message::Applied { destination, done, total } => {
            &&& after == (App { apply_progress: after.apply_progress, ..before })
            &&& marks(after.apply_progress@) == marked(
                marks(before.apply_progress@),
                Mark { destination: destination@, done, total },
            )
        },
        Message::Done { stats } => {
            &&& after == (App {
                stats: Some(stats),
                phase: Phase::Done,
                status: after.status,
                ..before
            })
            &&& after.status@ == if before.opts.dry_run {
                "Dry run complete — nothing was written."@
            } else {
                "Sync complete."@
            }
        },
        Message::Error { message } => {
            &&& after == (App {
                error: Some(message),
                phase: Phase::Error,
                status: after.status,
                ..before
            })
            &&& after.status@ == message@
        },
    }
}

proof fn lemma_action_total_take(plans: Seq<DestPlan>, i: int)
    requires
        0 <= i <= plans.len(),
    ensures
        action_total(plans.take(i)) <= action_total(plans),
    decreases plans.len(),
{
    if i == plans.len() {
        assert(plans.take(i) =~= plans);
    } else {
        lemma_action_total_take(plans.drop_last(), i);
        assert(plans.drop_last().take(i) =~= plans.take(i));
    }
}

proof fn lemma_done_total_take(s: Seq<Mark>, i: int)
    requires
        0 <= i <= s.len(),
    ensures
        done_total(s.take(i)) <= done_total(s),
    decreases s.len(),
{
    if i == s.len() {
        assert(s.take(i) =~= s);
    } else {
        lemma_done_total_take(s.drop_last(), i);
        assert(s.drop_last().take(i) =~= s.take(i));
    }
}

impl App {
    /// Whether the rows of the review list can be counted.
    pub open spec fn fits(&self) -> bool {
        line_total(self.plans@) <= usize::MAX
    }

    /// A run that starts by scanning.
    pub fn new(config: Config, opts: RunOptions) -> (res: App)
        ensures
            res.config == config,
            res.opts == opts,
            res.phase == Phase::Scanning,
            res.plans@.len() == 0,
            res.apply_progress@.len() == 0,
            res.stats is None,
            res.review_scroll == 0,
            res.status@ == "Scanning…"@,
            res.error is None,
            !res.should_quit,
            res.fits(),
    {
        App {
            config,
            opts,
            phase: Phase::Scanning,
            plans: Vec::new(),
            apply_progress: Vec::new(),
            stats: None,
            review_scroll: 0,
            status: "Scanning…".to_owned(),
            error: None,
            should_quit: false,
        }
    }

    /// How many destinations a plan is expected for.
    pub fn expected_plans(&self) -> (res: usize)
        ensures
            res == self.config.destinations@.len(),
    {
        self.config.destinations.len()
    }

    /// Total actions across every destination's plan.
    pub fn total_actions(&self) -> (res: usize)
        requires
            action_total(self.plans@) <= usize::MAX,
        ensures
            res == action_total(self.plans@),
    {
        let mut n: usize = 0;
        for i in 0..self.plans.len()
            invariant
                n == action_total(self.plans@.take(i as int)),
                action_total(self.plans@) <= usize::MAX,
        {
            proof {
                lemma_action_total_take(self.plans@, i + 1);
                assert(self.plans@.take(i + 1).drop_last() =~= self.plans@.take(i as int));
                let plan = self.plans@[i as int].plan;
                assert(plan.acts().len() == plan.actions@.len());
            }
            n += self.plans[i].plan.actions.len();
        }
        assert(self.plans@.take(self.plans@.len() as int) =~= self.plans@);
        n
    }

    /// Total actions already applied across destinations.
    pub fn applied_actions(&self) -> (res: usize)
        requires
            done_total(marks(self.apply_progress@)) <= usize::MAX,
        ensures
            res == done_total(marks(self.apply_progress@)),
    {
        let ghost all = marks(self.apply_progress@);
        let mut n: usize = 0;
        for i in 0..self.apply_progress.len()
            invariant
                all == marks(self.apply_progress@),
                n == done_total(all.take(i as int)),
                done_total(all) <= usize::MAX,
        {
            proof {
                lemma_done_total_take(all, i + 1);
                assert(all.take(i + 1).drop_last() =~= all.take(i as int));
            }
            n += self.apply_progress[i].done;
        }
        assert(all.take(self.apply_progress@.len() as int) =~= all);
        n
    }

    /// True where no destination needs a change.
    pub fn nothing_to_do(&self) -> (res: bool)
        ensures
            res == all_empty(self.plans@),
    {
        for i in 0..self.plans.len()
            invariant
                forall|j: int|
                    0 <= j < i ==> (#[trigger] self.plans@[j]).plan.acts().len() == 0,
        {
            if !self.plans[i].plan.is_empty() {
                return false;
            }
        }
        true
    }

    /// Number of rows of the review list: one header per destination plus each of its
    /// actions.
    pub fn review_line_count(&self) -> (res: usize)
        requires
            self.fits(),
        ensures
            res == line_total(self.plans@),
    {
        self.plans.len() + self.total_actions()
    }

    /// Fold a worker message into the state, advancing the phase as needed.
    pub fn on_message(&mut self, msg: Message)
        requires
            old(self).fits(),
            msg matches Message::Planned { destination: _, plan } ==> line_total(old(self).plans@)
                + 1 + plan.acts().len() <= usize::MAX,
        ensures
            handled(*old(self), msg, *final(self)),
            final(self).fits(),
    {
        match msg {
            Message::Scanned { root, count } => {
                let mut s = "Scanned ".to_owned();
                s.append(root.display().as_str());
                s.append(" (");
                s.append(text::decimal_usize(count).as_str());
                s.append(" entries)…");
                self.status = s;
            },
            Message::Planned { destination, plan } => {
                let ghost before = self.plans@;
                self.plans.push(DestPlan { destination, plan });
                assert(self.plans@.drop_last() =~= before);
                if self.plans.len() >= self.expected_plans() {
                    self.finish_scanning();
                }
            },
            Message::Applied { destination, done, total } => {
                self.record_progress(Progress { destination, done, total });
            },
            Message::Done { stats } => {
                self.stats = Some(stats);
                self.phase = Phase::Done;
                self.status = if self.opts.dry_run {
                    "Dry run complete — nothing was written.".to_owned()
                } else {
                    "Sync complete.".to_owned()
                };
            },
            Message::Error { message } => {
                self.status = message.clone();
                self.error = Some(message);
                self.phase = Phase::Error;
            },
        }
    }

    fn record_progress(&mut self, p: Progress)
        ensures
            *final(self) == (App { apply_progress: final(self).apply_progress, ..*old(self) }),
            marks(final(self).apply_progress@) == marked(marks(old(self).apply_progress@), p@),
    {
        let ghost all = marks(self.apply_progress@);
        let mut i: usize = self.apply_progress.len();
        assert(all.take(i as int) =~= all);
        while i > 0
            invariant
                i <= self.apply_progress@.len(),
                all == marks(self.apply_progress@),
                *self == *old(self),
                mark_position(all, p.destination@) == mark_position(
                    all.take(i as int),
                    p.destination@,
                ),
            decreases i,
        {
            i -= 1;
            assert(all.take(i + 1).drop_last() =~= all.take(i as int));
            assert(all.take(i + 1).last() == self.apply_progress@[i as int]@);
            if self.apply_progress[i].destination.same(&p.destination) {
                self.apply_progress.set(i, p);
                assert(marks(self.apply_progress@) =~= all.update(i as int, p@));
                return;
            }
        }
        self.apply_progress.push(p);
        assert(marks(self.apply_progress@) =~= all.push(p@));
    }

    /// Decide, once every destination has a plan, whether to stop (nothing to do), to
    /// wait for confirmation, or to apply at once.
    fn finish_scanning(&mut self)
        requires
            old(self).fits(),
        ensures
            scanning_finished(*old(self), *final(self)),
    {
        if self.nothing_to_do() {
            self.stats = Some(Stats::default());
            self.phase = Phase::Done;
            self.status = "Already up to date — nothing to sync.".to_owned();
        } else if self.opts.yes {
            self.phase = Phase::Applying;
            self.status = "Applying…".to_owned();
        } else {
            self.status = self.review_hint();
            self.phase = Phase::Review;
        }
    }

    fn review_hint(&self) -> (res: String)
        requires
            self.fits(),
        ensures
            res@ == hint_text(*self),
    {
        let mut s = text::decimal_usize(self.total_actions());
        s.append(" change(s) across ");
        s.append(text::decimal_usize(self.expected_plans()).as_str());
        s.append(" destination(s).  [Enter/y] ");
        s.append(
            if self.opts.dry_run {
                "preview"
            } else {
                "apply"
            },
        );
        s.append("   [q] cancel");
        s
    }

    /// Confirm the review and start applying. Does nothing in any other phase.
    pub fn confirm(&mut self)
        ensures
            if old(self).phase == Phase::Review {
                &&& *final(self) == (App {
                    phase: Phase::Applying,
                    status: final(self).status,
                    ..*old(self)
                })
                &&& final(self).status@ == if old(self).opts.dry_run {
                    "Previewing…"@
                } else {
                    "Applying…"@
                }
            } else {
                *final(self) == *old(self)
            },
    {
        if self.phase == Phase::Review {
            self.phase = Phase::Applying;
            self.status = if self.opts.dry_run {
                "Previewing…".to_owned()
            } else {
                "Applying…".to_owned()
            };
        }
    }

    /// Move the review list by `rows` towards its end, up to its last row.
    fn scroll_by(&mut self, rows: usize)
        requires
            old(self).fits(),
            old(self).review_scroll + rows <= usize::MAX,
        ensures
            *final(self) == (App {
                review_scroll: scrolled(
                    old(self).review_scroll as int + rows,
                    line_total(old(self).plans@),
                ),
                ..*old(self)
            }),
    {
        let lines = self.review_line_count();
        let max: usize = if lines > 0 {
            lines - 1
        } else {
            0
        };
        let next: usize = self.review_scroll + rows;
        self.review_scroll = if next < max {
            next
        } else {
            max
        };
    }

    /// Move the review list down by a row.
    pub fn scroll_down(&mut self)
        requires
            old(self).fits(),
            old(self).review_scroll < usize::MAX,
        ensures
            *final(self) == (App {
                review_scroll: scrolled(
                    old(self).review_scroll + 1,
                    line_total(old(self).plans@),
                ),
                ..*old(self)
            }),
    {
        self.scroll_by(1);
    }

    /// Move the review list up by a row.
    pub fn scroll_up(&mut self)
        ensures
            *final(self) == (App {
                review_scroll: (if old(self).review_scroll < 1 {
                    0
                } else {
                    old(self).review_scroll - 1
                }) as usize,
                ..*old(self)
            }),
    {
        self.review_scroll = if self.review_scroll < 1 {
            0
        } else {
            self.review_scroll - 1
        };
    }

    /// Move the review list down by ten rows.
    pub fn page_down(&mut self)
        requires
            old(self).fits(),
            old(self).review_scroll <= usize::MAX - 10,
        ensures
            *final(self) == (App {
                review_scroll: scrolled(
                    old(self).review_scroll + 10,
                    line_total(old(self).plans@),
                ),
                ..*old(self)
            }),
    {
        self.scroll_by(10);
    }

    /// Move the review list up by ten rows.
    pub fn page_up(&mut self)
        ensures
            *final(self) == (App {
                review_scroll: (if old(self).review_scroll < 10 {
                    0
                } else {
                    old(self).review_scroll - 10
                }) as usize,
                ..*old(self)
            }),
    {
        self.review_scroll = if self.review_scroll < 10 {
            0
        } else {
            self.review_scroll - 10
        };
    }

    /// Leave the dashboard.
    pub fn quit(&mut self)
        ensures
            *final(self) == (App { should_quit: true, ..*old(self) }),
    {
        self.should_quit = true;
    }
}

/// A first visible row, held to the last of `lines` rows.
pub open spec fn scrolled(next: int, lines: nat) -> usize {
    let max = if lines > 0 {
        lines - 1
    } else {
        0
    };
    if next < max {
        next as usize
    } else {
        max as usize
    }
}

// --- Laws ------------------------------------------------------------------

/// No message starts the applying, and with it the writing, unless the run was told to
/// go without a review; and then only once every destination has its plan and there
/// is something to do.
pub proof fn law_applying_needs_consent(before: App, msg: Message, after: App)
    requires
        handled(before, msg, after),
        before.phase != Phase::Applying,
        after.phase == Phase::Applying,
    ensures
        before.opts.yes,
        msg is Planned,
        after.plans@.len() >= before.config.destinations@.len(),
        !all_empty(after.plans@),
{
}

/// Every message leaves the configuration and the options as they are.
pub proof fn law_messages_keep_the_configuration(before: App, msg: Message, after: App)
    requires
        handled(before, msg, after),
    ensures
        after.config == before.config,
        after.opts == before.opts,
        after.should_quit == before.should_quit,
        after.review_scroll == before.review_scroll,
{
}

/// Reporting progress at a destination again replaces the earlier report: no
/// destination is counted twice.
pub proof fn law_progress_is_per_destination(s: Seq<Mark>, a: Mark, b: Mark)
    requires
        same_path(a.destination, b.destination),
    ensures
        marked(marked(s, a), b) == marked(s, b),
{
    let p = mark_position(s, a.destination);
    let t = marked(s, a);
    lemma_mark_position(s, a.destination);
    assert(components(a.destination) == components(b.destination));
    lemma_mark_position_same(s, a.destination, b.destination);
    if p >= 0 {
        lemma_mark_position_update(s, a, p);
        lemma_mark_position_same(t, a.destination, b.destination);
        assert(t.update(p, b) =~= s.update(p, b));
    } else {
        assert(t.drop_last() =~= s);
        assert(t.update(s.len() as int, b) =~= s.push(b));
    }
}

proof fn lemma_mark_position(s: Seq<Mark>, d: Seq<u8>)
    ensures
        -1 <= mark_position(s, d) < s.len(),
        mark_position(s, d) >= 0 ==> same_path(s[mark_position(s, d)].destination, d),
    decreases s.len(),
{
    if s.len() > 0 && !same_path(s.last().destination, d) {
        lemma_mark_position(s.drop_last(), d);
    }
}

proof fn lemma_mark_position_same(s: Seq<Mark>, d: Seq<u8>, e: Seq<u8>)
    requires
        same_path(d, e),
    ensures
        mark_position(s, d) == mark_position(s, e),
    decreases s.len(),
{
    if s.len() > 0 {
        lemma_mark_position_same(s.drop_last(), d, e);
    }
}

proof fn lemma_mark_position_update(s: Seq<Mark>, m: Mark, p: int)
    requires
        p == mark_position(s, m.destination),
        p >= 0,
    ensures
        mark_position(s.update(p, m), m.destination) == p,
    decreases s.len(),
{
    lemma_mark_position(s, m.destination);
    let t = s.update(p, m);
    if p < s.len() - 1 {
        assert(t.drop_last() =~= s.drop_last().update(p, m));
        lemma_mark_position_update(s.drop_last(), m, p);
    }
}

/// A plan is taken in for its destination. Once all destinations have theirs, a run with
/// nothing to do anywhere is done, one that was told to go ahead applies, and any other
/// asks for review; until then nothing else changes.
pub proof fn law_plans_are_taken_in(
    before: App,
    destination: PathBuf,
    plan: Plan,
    after: App,
)
    requires
        handled(before, Message::Planned { destination, plan }, after),
    ensures
        after.plans@ == before.plans@.push(DestPlan { destination, plan }),
        before.plans@.len() + 1 < before.config.destinations@.len() ==> after.phase
            == before.phase && after.stats == before.stats,
        before.plans@.len() + 1 >= before.config.destinations@.len() ==> {
            let idle = forall|i: int|
                0 <= i < after.plans@.len() ==> (#[trigger] after.plans@[i]).plan.actions@.len()
                    == 0;
            &&& after.phase == Phase::Done <==> idle
            &&& after.phase == Phase::Applying <==> !idle && before.opts.yes
            &&& after.phase == Phase::Review <==> !idle && !before.opts.yes
            &&& idle ==> after.stats == Some(
                Stats { create_dirs: 0, copies: 0, overwrites: 0, deletes: 0, bytes: 0 },
            )
            &&& !idle ==> after.stats == before.stats
        },
{
    assert forall|i: int| 0 <= i < after.plans@.len() implies (
    #[trigger] after.plans@[i]).plan.actions@.len() == after.plans@[i].plan.acts().len() by {}
    if before.plans@.len() + 1 >= before.config.destinations@.len() {
        if forall|i: int|
            0 <= i < after.plans@.len() ==> (#[trigger] after.plans@[i]).plan.actions@.len() == 0 {
            assert(all_empty(after.plans@));
        }
    }
}

/// How a run ends is what the worker reports: its totals, or what went wrong.
pub proof fn law_the_end_is_taken_in(before: App, msg: Message, after: App)
    requires
        handled(before, msg, after),
    ensures
        msg matches Message::Done { stats } ==> after.phase == Phase::Done && after.stats == Some(
            stats,
        ),
        msg matches Message::Error { message } ==> after.phase == Phase::Error && after.error
            == Some(message),
        msg is Scanned || msg is Applied ==> after.phase == before.phase && after.plans
            == before.plans && after.stats == before.stats,
{
}

/// A report of progress stands in the records, and those of other destinations are as
/// they were.
pub proof fn law_progress_is_recorded(s: Seq<Mark>, m: Mark)
    ensures
        exists|i: int| 0 <= i < marked(s, m).len() && #[trigger] marked(s, m)[i] == m,
        forall|j: int|
            #![trigger s[j]]
            0 <= j < s.len() && !same_path(s[j].destination, m.destination) ==> marked(s, m)[j]
                == s[j],
{
    lemma_mark_position(s, m.destination);
    let p = mark_position(s, m.destination);
    if p >= 0 {
        assert(marked(s, m)[p] == m);
    } else {
        assert(marked(s, m)[s.len() as int] == m);
    }
}

/// The changes that are counted are the actions of all plans.
pub proof fn law_actions_are_all_counted(plans: Seq<DestPlan>)
    ensures
        action_total(plans) == plans.fold_left(0, |n: int, d: DestPlan| n + d.plan.actions@.len()),
    decreases plans.len(),
{
    if plans.len() > 0 {
        law_actions_are_all_counted(plans.drop_last());
    }
}

/// The review scrolls as far as asked and never past its last row.
pub proof fn law_scrolling_stays_in_view(next: int, lines: nat)
    requires
        0 <= next,
        lines <= usize::MAX,
    ensures
        lines > 0 ==> scrolled(next, lines) < lines,
        lines == 0 ==> scrolled(next, lines) == 0,
        next < lines ==> scrolled(next, lines) == next,
        next >= lines > 0 ==> scrolled(next, lines) == lines - 1,
{
}

} // verus!
