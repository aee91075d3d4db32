//! What the controls around the board decide: which numbers the text
//! fields accept, what the export and import buttons show, and which
//! format reads or writes a board.

use vstd::prelude::*;
use crate::base::board::{CellContent, CellState};
use crate::base::encode_decode::ascii::{board_text, read_as};
use crate::base::encode_decode::base32hex::{board_code, mines_text, query_decoded};
use crate::base::encode_decode::base64::{base64_bytes, base64_text, frame_bytes, unframed};
use crate::base::encode_decode::llama_url::after_question;
use crate::base::encode_decode::text::{chars_of, number_of, parse_decimal};
use crate::base::encode_decode::web::{form_pairs_of, link_parts};
use crate::base::encode_decode::EncodeType;
use crate::base::vec2d::Vec2D;
use crate::base::ImportPack;
use crate::engine::solver::error::Error;
use crate::engine::solver::{initial_safety, BoardModel, BoardSafety, Solver};

verus! {

/// The four numbers that the player types in.
#[derive(Debug, Clone, Copy, PartialEq, Eq, Structural)]
pub enum TextInputType {
    Width,
    Height,
    Mines,
    CellSize,
}

impl TextInputType {
    /// The largest number that the field accepts.
    pub open spec fn spec_upper(self) -> usize {
        match self {
            TextInputType::Width => 1000,
            TextInputType::Height => 1000,
            TextInputType::Mines => 1000000,
            TextInputType::CellSize => 64,
        }
    }

    /// The largest number that the field accepts.
    #[verifier::when_used_as_spec(spec_upper)]
    pub fn upper(self) -> (r: usize)
        ensures
            r == self.spec_upper(),
    {
        match self {
            TextInputType::Width => 1000,
            TextInputType::Height => 1000,
            TextInputType::Mines => 1000000,
            TextInputType::CellSize => 64,
        }
    }

    /// The smallest number that a submitted field is raised to.
    pub fn lower(self) -> (r: usize)
        ensures
            r == match self {
                TextInputType::CellSize => 8usize,
                _ => 1usize,
            },
    {
        match self {
            TextInputType::CellSize => 8,
            _ => 1,
        }
    }

    /// The number that an empty field stands for when no game is running.
    pub fn default_value(self) -> (r: usize)
        ensures
            r == match self {
                TextInputType::Width => 30usize,
                TextInputType::Height => 16usize,
                TextInputType::Mines => 99usize,
                TextInputType::CellSize => 24usize,
            },
    {
        match self {
            TextInputType::Width => 30,
            TextInputType::Height => 16,
            TextInputType::Mines => 99,
            TextInputType::CellSize => 24,
        }
    }

    /// The number that the field takes from what was typed: the typed
    /// number, raised to one and capped at the largest that the field
    /// accepts; nothing where the text is no number.
    pub fn accept(self, value: &str) -> (r: Option<usize>)
        ensures
            r == match number_of(value@, value@.len() as int) {
                Some(typed) => if value@.len() == 0 || typed > usize::MAX {
                    None
                } else if typed < 1 {
                    Some(1usize)
                } else if typed > self.spec_upper() {
                    Some(self.spec_upper())
                } else {
                    Some(typed as usize)
                },
                None => None,
            },
    {
        let text = chars_of(value);
        assert(text@.subrange(0, text@.len() as int) =~= text@);
        match parse_decimal(&text, 0, text.len()) {
            Some(typed) => {
                if typed < 1 {
                    Some(1)
                } else if typed > self.upper() {
                    Some(self.upper())
                } else {
                    Some(typed)
                }
            },
            None => None,
        }
    }
}

/// What the export button shows.
#[derive(Debug, Clone, Copy, PartialEq, Eq, Structural)]
pub enum ExportButtonState {
    Export,
    Exporting,
    Copied { remaining_secs: u64 },
}

/// What happens to the export.
#[derive(Debug, Clone, Copy, PartialEq, Eq, Structural)]
pub enum ExportEvent {
    ButtonClicked,
    Started,
    Completed,
    TimerTick,
}

impl ExportButtonState {
    /// The button after `event`: it shows the export while it runs, then
    /// for three seconds that the board was copied; a click takes the notice
    /// away at once.
    pub open spec fn after(self, event: ExportEvent) -> ExportButtonState {
        match event {
            ExportEvent::ButtonClicked => match self {
                ExportButtonState::Copied { .. } => ExportButtonState::Export,
                _ => self,
            },
            ExportEvent::Started => ExportButtonState::Exporting,
            ExportEvent::Completed => ExportButtonState::Copied { remaining_secs: 3 },
            ExportEvent::TimerTick => match self {
                ExportButtonState::Copied { remaining_secs } => if remaining_secs > 1 {
                    ExportButtonState::Copied { remaining_secs: (remaining_secs - 1) as u64 }
                } else {
                    ExportButtonState::Export
                },
                _ => self,
            },
        }
    }

    /// Whether a click on the button asks for the export dialog.
    pub open spec fn opens_dialog(self, event: ExportEvent) -> bool {
        event == ExportEvent::ButtonClicked && self == ExportButtonState::Export
    }

    /// Takes in `event` and says whether the export dialog is to be shown.
    pub fn update(&mut self, event: ExportEvent) -> (r: bool)
        ensures
            *final(self) == old(self).after(event),
            r == old(self).opens_dialog(event),
    {
        match event {
            ExportEvent::ButtonClicked => match *self {
                ExportButtonState::Export => true,
                ExportButtonState::Copied { .. } => {
                    *self = ExportButtonState::Export;
                    false
                },
                _ => false,
            },
            ExportEvent::Started => {
                *self = ExportButtonState::Exporting;
                false
            },
            ExportEvent::Completed => {
                *self = ExportButtonState::Copied { remaining_secs: 3 };
                false
            },
            ExportEvent::TimerTick => {
                match *self {
                    ExportButtonState::Copied { remaining_secs } => {
                        if remaining_secs > 1 {
                            *self = ExportButtonState::Copied { remaining_secs: remaining_secs - 1 };
                        } else {
                            *self = ExportButtonState::Export;
                        }
                    },
                    _ => {},
                }
                false
            },
        }
    }
}

/// What the import button shows.
#[derive(Debug, Clone, Copy, PartialEq, Eq, Structural)]
pub enum ImportButtonState {
    Import,
    Importing,
    Completed { remaining_secs: u64 },
}

/// What happens to the import.
#[derive(Debug, Clone, Copy, PartialEq, Eq, Structural)]
pub enum ImportEvent {
    ButtonClicked,
    Started,
    /// The import ended, with a board that is now in play or without one.
    Finished { in_play: bool },
    TimerTick,
}

impl ImportButtonState {
    /// The button after `event`: it shows the import while it runs, then
    /// for three seconds that a board came in; a click takes the notice away
    /// at once.
    pub open spec fn after(self, event: ImportEvent) -> ImportButtonState {
        match event {
            ImportEvent::ButtonClicked => match self {
                ImportButtonState::Completed { .. } => ImportButtonState::Import,
                _ => self,
            },
            ImportEvent::Started => ImportButtonState::Importing,
            ImportEvent::Finished { in_play } => if in_play {
                ImportButtonState::Completed { remaining_secs: 3 }
            } else {
                ImportButtonState::Import
            },
            ImportEvent::TimerTick => match self {
                ImportButtonState::Completed { remaining_secs } => if remaining_secs > 1 {
                    ImportButtonState::Completed { remaining_secs: (remaining_secs - 1) as u64 }
                } else {
                    ImportButtonState::Import
                },
                _ => self,
            },
        }
    }

    /// Whether a click on the button asks for the import dialog.
    pub open spec fn opens_dialog(self, event: ImportEvent) -> bool {
        event == ImportEvent::ButtonClicked && self == ImportButtonState::Import
    }

    /// Takes in `event` and says whether the import dialog is to be shown.
    pub fn update(&mut self, event: ImportEvent) -> (r: bool)
        ensures
            *final(self) == old(self).after(event),
            r == old(self).opens_dialog(event),
    {
        match event {
            ImportEvent::ButtonClicked => match *self {
                ImportButtonState::Import => true,
                ImportButtonState::Completed { .. } => {
                    *self = ImportButtonState::Import;
                    false
                },
                _ => false,
            },
            ImportEvent::Started => {
                *self = ImportButtonState::Importing;
                false
            },
            ImportEvent::Finished { in_play } => {
                if in_play {
                    *self = ImportButtonState::Completed { remaining_secs: 3 };
                } else {
                    *self = ImportButtonState::Import;
                }
                false
            },
            ImportEvent::TimerTick => {
                match *self {
                    ImportButtonState::Completed { remaining_secs } => {
                        if remaining_secs > 1 {
                            *self = ImportButtonState::Completed {
                                remaining_secs: remaining_secs - 1,
                            };
                        } else {
                            *self = ImportButtonState::Import;
                        }
                    },
                    _ => {},
                }
                false
            },
        }
    }
}

/// The text that the format `encode_type` gives for a board.
pub open spec fn exported(
    encode_type: EncodeType,
    cells: &Vec2D<CellContent>,
    start: Option<(usize, usize)>,
) -> Seq<char> {
    match encode_type {
        EncodeType::Ascii => board_text(cells, start, false),
        EncodeType::AsciiWithNumbers => board_text(cells, start, true),
        EncodeType::Base64 => base64_text(
            frame_bytes(cells@, cells.spec_width(), cells.spec_height(), start),
        ),
        EncodeType::PttUrl => "https://pttacgfans.github.io/Minesweeper-ZiNi-Calculator/?b="@
            + board_code(cells.spec_width(), cells.spec_height()) + "&m="@ + mines_text(cells@),
        EncodeType::LlamaUrl => "https://llamasweeper.com/#/game/board-editor?b="@ + board_code(
            cells.spec_width(),
            cells.spec_height(),
        ) + "&m="@ + mines_text(cells@),
    }
}

/// Writes a board in the format `encode_type`. The links hold no place to
/// start at.
pub fn export_board(
    encode_type: EncodeType,
    cell_contents: &Vec2D<CellContent>,
    start_pos: Option<(usize, usize)>,
) -> (r: String)
    requires
        cell_contents.wf(),
        encode_type == EncodeType::AsciiWithNumbers ==> forall|i: int|
            0 <= i < cell_contents@.len() ==> (#[trigger] cell_contents@[i] matches CellContent::Number(
                n,
            ) ==> n < 10),
    ensures
        r@ == exported(encode_type, cell_contents, start_pos),
{
    match encode_type {
        EncodeType::Ascii => crate::base::encode_decode::ascii::encode(cell_contents, start_pos),
        EncodeType::AsciiWithNumbers => crate::base::encode_decode::ascii::encode_with_numbers(cell_contents, start_pos),
        EncodeType::Base64 => crate::base::encode_decode::base64::encode(cell_contents, start_pos),
        EncodeType::PttUrl => crate::base::encode_decode::ptt_url::encode(cell_contents),
        EncodeType::LlamaUrl => crate::base::encode_decode::llama_url::encode(cell_contents),
    }
}

/// Reads a board from a text in the format `encode_type`; text with
/// numbers is read as text without.
pub fn import_board(encode_type: EncodeType, text: &str) -> (r: Option<ImportPack>)
    ensures
        match encode_type {
            EncodeType::Ascii | EncodeType::AsciiWithNumbers => read_as(text@, r),
            EncodeType::Base64 => match base64_bytes(text@) {
                Some(bytes) => unframed(bytes, r),
                None => r is None,
            },
            EncodeType::PttUrl => match link_parts(text@) {
                Some((pairs, _)) => query_decoded(pairs, r),
                None => r is None,
            },
            EncodeType::LlamaUrl => match link_parts(text@) {
                Some((_, Some(fragment))) => match after_question(fragment, 0) {
                    Some(query) => query_decoded(form_pairs_of(query), r),
                    None => r is None,
                },
                _ => r is None,
            },
        },
{
    match encode_type {
        EncodeType::Ascii => crate::base::encode_decode::ascii::decode(text),
        EncodeType::AsciiWithNumbers => crate::base::encode_decode::ascii::decode(text),
        EncodeType::Base64 => crate::base::encode_decode::base64::decode(text),
        EncodeType::PttUrl => crate::base::encode_decode::ptt_url::decode(text),
        EncodeType::LlamaUrl => crate::base::encode_decode::llama_url::decode(text),
    }
}

/// When the solver runs: one run at a time, and one more after it where
/// the board changed in between.
#[derive(Debug, Clone, Copy, PartialEq, Eq, Structural)]
pub struct SolverSchedule {
    /// The player wants to see the chances.
    pub show_probabilities: bool,
    /// A run is under way.
    pub in_progress: bool,
    /// The board changed while a run was under way.
    pub scheduled: bool,
}

/// What asks for the solver, or answers it.
#[derive(Debug, Clone, Copy, PartialEq, Eq, Structural)]
pub enum SolverEvent {
    /// The board or a setting of the solver changed.
    Changed,
    /// The player switched the chances on or off.
    SetEnabled(bool),
    /// A run came to its end.
    Completed,
}

impl SolverSchedule {
    /// Nothing shown, nothing running.
    pub fn new() -> (r: Self)
        ensures
            r == (SolverSchedule { show_probabilities: false, in_progress: false, scheduled: false }),
    {
        SolverSchedule { show_probabilities: false, in_progress: false, scheduled: false }
    }

    /// The schedule after a run is asked for: a run starts unless one is
    /// under way, and then one is owed.
    pub open spec fn asked(self) -> SolverSchedule {
        if !self.show_probabilities {
            self
        } else if self.in_progress {
            SolverSchedule { scheduled: true, ..self }
        } else {
            SolverSchedule { in_progress: true, ..self }
        }
    }

    /// The schedule after `event`.
    pub open spec fn after(self, event: SolverEvent) -> SolverSchedule {
        match event {
            SolverEvent::Changed => self.asked(),
            SolverEvent::SetEnabled(true) => (SolverSchedule {
                show_probabilities: true,
                ..self
            }).asked(),
            SolverEvent::SetEnabled(false) => SolverSchedule {
                show_probabilities: false,
                in_progress: false,
                scheduled: false,
            },
            SolverEvent::Completed => if self.scheduled {
                (SolverSchedule { in_progress: false, scheduled: false, ..self }).asked()
            } else {
                SolverSchedule { in_progress: false, ..self }
            },
        }
    }

    /// Whether `event` starts a run.
    pub open spec fn starts(self, event: SolverEvent) -> bool {
        let ready = match event {
            SolverEvent::Changed => self.show_probabilities && !self.in_progress,
            SolverEvent::SetEnabled(on) => on && !self.in_progress,
            SolverEvent::Completed => self.scheduled && self.show_probabilities,
        };
        ready
    }

    /// Takes in `event` and says whether a run of the solver is to start.
    pub fn update(&mut self, event: SolverEvent) -> (r: bool)
        ensures
            *final(self) == old(self).after(event),
            r == old(self).starts(event),
    {
        match event {
            SolverEvent::Changed => self.ask(),
            SolverEvent::SetEnabled(on) => {
                if on {
                    self.show_probabilities = true;
                    self.ask()
                } else {
                    self.show_probabilities = false;
                    self.in_progress = false;
                    self.scheduled = false;
                    false
                }
            },
            SolverEvent::Completed => {
                self.in_progress = false;
                if self.scheduled {
                    self.scheduled = false;
                    self.ask()
                } else {
                    false
                }
            },
        }
    }

    /// Asks for a run: it starts unless one is under way.
    fn ask(&mut self) -> (r: bool)
        ensures
            *final(self) == old(self).asked(),
            r == (old(self).show_probabilities && !old(self).in_progress),
    {
        if !self.show_probabilities {
            return false;
        }
        if self.in_progress {
            self.scheduled = true;
            return false;
        }
        self.in_progress = true;
        true
    }
}

/// One run of the solver: the snapshot of the board as the player sees it,
/// and what the strategy makes of it.
pub fn solve<S: Solver>(
    solver: &S,
    cell_states: &Vec2D<CellState>,
    mines: usize,
    admit_flags: bool,
) -> (r: Result<BoardSafety, Error>)
    requires
        cell_states.wf(),
    ensures
        exists|start: BoardModel|
            {
                &&& start.wf()
                &&& start.width == cell_states.spec_width()
                &&& start.height == cell_states.spec_height()
                &&& start.mines == mines
                &&& start.suggestion is None
                &&& forall|x: int, y: int|
                    start.in_range(x, y) ==> #[trigger] start.at(x, y) == initial_safety(
                        cell_states,
                        x,
                        y,
                        admit_flags,
                    )
                &&& match r {
                    Ok(refined) => refined.wf() && solver.outcome(start) == Ok::<BoardModel, Error>(
                        refined@,
                    ),
                    Err(e) => solver.outcome(start) == Err::<BoardModel, Error>(e),
                }
            },
{
    let board_safety = BoardSafety::new(cell_states, mines, admit_flags);
    let ghost start = board_safety@;
    let r = solver.calculate(board_safety);
    assert(start.wf());
    r
}

} // verus!
