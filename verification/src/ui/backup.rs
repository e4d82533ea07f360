//! The backup screen: what it shows while a backup runs and when it is over.

use vstd::prelude::*;
use vstd::string::*;

use crate::backup::{BackupEvent, BackupReport};
use crate::text::{self, decimal, lossy_text};
use crate::theme;
use crate::ui::view::{
    self, blank_line, bold, colored, in_bold, in_color, line1, run, Lines, Run,
};
use crate::ui::widgets::{bytes_text, human_bytes};

verus! {

/// How the backup screen ended.
#[derive(Debug)]
pub enum BackupOutcome {
    /// The backup finished.
    Done(BackupReport),
    /// The backup failed; why.
    Failed(String),
}

/// What the worker reports.
#[derive(Debug)]
pub enum Msg {
    Event(BackupEvent),
    Done(BackupReport),
    Error(String),
}

/// The backup screen's state.
#[derive(Debug)]
pub struct State {
    pub status: String,
    pub bytes: u64,
    pub tick: usize,
    pub finished: Option<BackupOutcome>,
}

/// What a report makes of the state.
pub open spec fn reported(before: State, msg: Msg, after: State) -> bool {
    match msg {
        Msg::Event(BackupEvent::FetchingKey) => {
            &&& after == (State { status: after.status, ..before })
            &&& after.status@ == "Fetching the encryption key…"@
        },
        Msg::Event(BackupEvent::Archiving) => {
            &&& after == (State { status: after.status, ..before })
            &&& after.status@ == "Archiving and encrypting…"@
        },
        Msg::Event(BackupEvent::Progress { bytes }) => after == (State { bytes, ..before }),
        Msg::Event(BackupEvent::Pruning) => {
            &&& after == (State { status: after.status, ..before })
            &&& after.status@ == "Pruning old backups…"@
        },
        Msg::Done(report) => after == (State {
            finished: Some(BackupOutcome::Done(report)),
            ..before
        }),
        Msg::Error(e) => after == (State { finished: Some(BackupOutcome::Failed(e)), ..before }),
    }
}

impl State {
    /// A screen on which nothing has happened yet.
    pub fn new() -> (res: State)
        ensures
            res.status@ == "Starting…"@,
            res.bytes == 0,
            res.tick == 0,
            res.finished is None,
    {
        State { status: "Starting…".to_owned(), bytes: 0, tick: 0, finished: None }
    }

    /// Take in a report of the worker.
    pub fn on_message(&mut self, msg: Msg)
        ensures
            reported(*old(self), msg, *final(self)),
    {
        match msg {
            Msg::Event(BackupEvent::FetchingKey) => {
                self.status = "Fetching the encryption key…".to_owned();
            },
            Msg::Event(BackupEvent::Archiving) => {
                self.status = "Archiving and encrypting…".to_owned();
            },
            Msg::Event(BackupEvent::Progress { bytes }) => {
                self.bytes = bytes;
            },
            Msg::Event(BackupEvent::Pruning) => {
                self.status = "Pruning old backups…".to_owned();
            },
            Msg::Done(report) => {
                self.finished = Some(BackupOutcome::Done(report));
            },
            Msg::Error(e) => {
                self.finished = Some(BackupOutcome::Failed(e));
            },
        }
    }

    /// Whether a key press leaves the screen: only once the backup is over, so that an
    /// archive is never left half written.
    pub fn key_leaves(&self) -> (res: bool)
        ensures
            res == (self.finished is Some),
    {
        self.finished.is_some()
    }

    /// Move the spinner on.
    pub fn advance(&mut self)
        ensures
            *final(self) == (State {
                tick: (if old(self).tick == usize::MAX {
                    0
                } else {
                    old(self).tick + 1
                }) as usize,
                ..*old(self)
            }),
    {
        self.tick = if self.tick == usize::MAX {
            0
        } else {
            self.tick + 1
        };
    }

    /// How the screen ended.
    pub fn outcome(self) -> (res: BackupOutcome)
        ensures
            match self.finished {
                Some(o) => res == o,
                None => res matches BackupOutcome::Failed(m) && m@
                    == "the backup worker stopped unexpectedly"@,
            },
    {
        match self.finished {
            Some(o) => o,
            None => BackupOutcome::Failed("the backup worker stopped unexpectedly".to_owned()),
        }
    }
}

/// The spinner at a tick.
pub open spec fn spinner(tick: nat) -> Seq<char> {
    let i = tick % 10;
    if i == 0 {
        "⠋"@
    } else if i == 1 {
        "⠙"@
    } else if i == 2 {
        "⠹"@
    } else if i == 3 {
        "⠸"@
    } else if i == 4 {
        "⠼"@
    } else if i == 5 {
        "⠴"@
    } else if i == 6 {
        "⠦"@
    } else if i == 7 {
        "⠧"@
    } else if i == 8 {
        "⠇"@
    } else {
        "⠏"@
    }
}

fn spinner_frame(tick: usize) -> (res: &'static str)
    ensures
        res@ == spinner(tick as nat),
{
    let i: usize = tick % 10;
    if i == 0 {
        "⠋"
    } else if i == 1 {
        "⠙"
    } else if i == 2 {
        "⠹"
    } else if i == 3 {
        "⠸"
    } else if i == 4 {
        "⠼"
    } else if i == 5 {
        "⠴"
    } else if i == 6 {
        "⠦"
    } else if i == 7 {
        "⠧"
    } else if i == 8 {
        "⠇"
    } else {
        "⠏"
    }
}

/// The title of the screen.
pub fn screen_title() -> (res: &'static str)
    ensures
        res@ == " backup "@,
{
    " backup "
}

/// The lines of the screen.
pub open spec fn screen_view(state: State) -> Seq<Seq<Run>> {
    match state.finished {
        None => {
            let head = seq![
                blank_line(),
                seq![
                    run(
                        spinner(state.tick as nat) + "  "@ + state.status@,
                        in_color(theme::AMBER),
                    ),
                ],
            ];
            let body = if state.bytes > 0 {
                head.push(
                    seq![
                        run(
                            "    "@ + bytes_text(state.bytes as nat) + " written"@,
                            in_color(theme::COPY),
                        ),
                    ],
                )
            } else {
                head
            };
            body.push(blank_line()).push(
                seq![run("  the source is never modified"@, in_color(theme::TEXT_DIM))],
            )
        },
        Some(BackupOutcome::Done(report)) => seq![
            blank_line(),
            seq![run("✓ Backup complete"@, in_bold(theme::GOLD))],
            seq![
                run(
                    "  "@ + decimal(report.files as nat) + " file(s) · "@ + bytes_text(
                        report.bytes as nat,
                    ) + " encrypted"@,
                    in_color(theme::COPY),
                ),
            ],
            seq![run("  "@ + lossy_text(report.archive_path@), in_color(theme::TEXT_DIM))],
            blank_line(),
            seq![run("  press any key to return"@, in_color(theme::TEXT_DIM))],
        ],
        Some(BackupOutcome::Failed(msg)) => seq![
            blank_line(),
            seq![run("✗ Backup failed"@, in_bold(theme::ERROR))],
            seq![run("  "@ + msg@, in_color(theme::TEXT))],
            blank_line(),
            seq![run("  press any key to return"@, in_color(theme::TEXT_DIM))],
        ],
    }
}

/// The lines of the screen.
pub fn screen_lines(state: &State) -> (res: Lines)
    ensures
        res@ == screen_view(*state),
{
    let mut lines = Lines::new();
    lines.push(view::blank());
    match &state.finished {
        None => {
            let status = text::concat3(spinner_frame(state.tick), "  ", state.status.as_str());
            lines.push(line1(colored(status.as_str(), theme::AMBER)));
            if state.bytes > 0 {
                let written = text::concat3("    ", human_bytes(state.bytes).as_str(), " written");
                lines.push(line1(colored(written.as_str(), theme::COPY)));
            }
            lines.push(view::blank());
            lines.push(line1(colored("  the source is never modified", theme::TEXT_DIM)));
        },
        Some(BackupOutcome::Done(report)) => {
            lines.push(line1(bold("✓ Backup complete", theme::GOLD)));
            let mut s = "  ".to_owned();
            s.append(text::decimal_usize(report.files).as_str());
            s.append(" file(s) · ");
            s.append(human_bytes(report.bytes).as_str());
            s.append(" encrypted");
            lines.push(line1(colored(s.as_str(), theme::COPY)));
            let path = text::concat("  ", report.archive_path.display().as_str());
            lines.push(line1(colored(path.as_str(), theme::TEXT_DIM)));
            lines.push(view::blank());
            lines.push(line1(colored("  press any key to return", theme::TEXT_DIM)));
        },
        Some(BackupOutcome::Failed(msg)) => {
            lines.push(line1(bold("✗ Backup failed", theme::ERROR)));
            let text = text::concat("  ", msg.as_str());
            lines.push(line1(colored(text.as_str(), theme::TEXT)));
            lines.push(view::blank());
            lines.push(line1(colored("  press any key to return", theme::TEXT_DIM)));
        },
    }
    assert(lines@ =~= screen_view(*state));
    lines
}

// --- Laws ------------------------------------------------------------------

/// A backup screen ends with what the worker reports, and shows how much is written.
pub proof fn law_reports_are_taken_in(before: State, msg: Msg, after: State)
    requires
        reported(before, msg, after),
    ensures
        msg matches Msg::Done(report) ==> after.finished == Some(BackupOutcome::Done(report)),
        msg matches Msg::Error(e) ==> after.finished == Some(BackupOutcome::Failed(e)),
        msg matches Msg::Event(BackupEvent::Progress { bytes }) ==> after.bytes == bytes,
        msg is Event ==> after.finished == before.finished,
        after.tick == before.tick,
{
}

} // verus!
