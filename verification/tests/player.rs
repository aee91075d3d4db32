use minesweeper::ui::editor::EditorMessage;
use minesweeper::ui::main_window::BaseWindow;
use minesweeper::ui::modal::error::{ErrorMessage, ErrorModal};
use minesweeper::ui::modal::export::{ExportConfig, ExportMessage};
use minesweeper::ui::modal::import::ImportMessage;
use minesweeper::ui::modal::{Modal, ModalMessage};
use minesweeper::base::board::CellContent;
use minesweeper::base::encode_decode::EncodeType;
use minesweeper::base::vec2d::Vec2D;
use minesweeper::base::board::CellState;
use minesweeper::engine::solver::{default_engine, CellSafety};
use minesweeper::ui::player::{
    export_board, import_board, solve, ExportButtonState, ExportEvent, ImportButtonState,
    ImportEvent, SolverEvent, SolverSchedule, TextInputType,
};

#[test]
fn text_fields_take_numbers_within_bounds() {
    assert_eq!(TextInputType::Width.accept("30"), Some(30));
    assert_eq!(TextInputType::Width.accept("0"), Some(1));
    assert_eq!(TextInputType::Width.accept("1001"), Some(1000));
    assert_eq!(TextInputType::Height.accept("007"), Some(7));
    assert_eq!(TextInputType::Mines.accept("1000000"), Some(1000000));
    assert_eq!(TextInputType::Mines.accept("1000001"), Some(1000000));
    assert_eq!(TextInputType::CellSize.accept("3"), Some(3));
    assert_eq!(TextInputType::CellSize.accept("99"), Some(64));
    assert_eq!(TextInputType::CellSize.accept(""), None);
    assert_eq!(TextInputType::CellSize.accept("12px"), None);
    assert_eq!(TextInputType::Width.accept("-3"), None);
    assert_eq!(TextInputType::Width.accept("99999999999999999999999999"), None);
    assert_eq!(TextInputType::CellSize.lower(), 8);
    assert_eq!(TextInputType::Mines.lower(), 1);
    assert_eq!(TextInputType::Width.upper(), 1000);
    assert_eq!(
        [
            TextInputType::Width.default_value(),
            TextInputType::Height.default_value(),
            TextInputType::Mines.default_value(),
            TextInputType::CellSize.default_value(),
        ],
        [30, 16, 99, 24]
    );
}

#[test]
fn export_button_counts_down() {
    let mut button = ExportButtonState::Export;
    assert!(button.update(ExportEvent::ButtonClicked));
    assert_eq!(button, ExportButtonState::Export);
    assert!(!button.update(ExportEvent::Started));
    assert_eq!(button, ExportButtonState::Exporting);
    assert!(!button.update(ExportEvent::ButtonClicked));
    assert!(!button.update(ExportEvent::TimerTick));
    assert_eq!(button, ExportButtonState::Exporting);
    button.update(ExportEvent::Completed);
    assert_eq!(button, ExportButtonState::Copied { remaining_secs: 3 });
    button.update(ExportEvent::TimerTick);
    assert_eq!(button, ExportButtonState::Copied { remaining_secs: 2 });
    button.update(ExportEvent::TimerTick);
    button.update(ExportEvent::TimerTick);
    assert_eq!(button, ExportButtonState::Export);
    button.update(ExportEvent::Completed);
    assert!(!button.update(ExportEvent::ButtonClicked));
    assert_eq!(button, ExportButtonState::Export);
}

#[test]
fn import_button_counts_down() {
    let mut button = ImportButtonState::Import;
    assert!(button.update(ImportEvent::ButtonClicked));
    button.update(ImportEvent::Started);
    assert_eq!(button, ImportButtonState::Importing);
    assert!(!button.update(ImportEvent::ButtonClicked));
    button.update(ImportEvent::Finished { in_play: false });
    assert_eq!(button, ImportButtonState::Import);
    button.update(ImportEvent::Finished { in_play: true });
    assert_eq!(button, ImportButtonState::Completed { remaining_secs: 3 });
    button.update(ImportEvent::TimerTick);
    button.update(ImportEvent::TimerTick);
    assert_eq!(button, ImportButtonState::Completed { remaining_secs: 1 });
    button.update(ImportEvent::TimerTick);
    assert_eq!(button, ImportButtonState::Import);
}

#[test]
fn every_format_writes_and_most_read() {
    let mut cells = Vec2D::filled(3, 2, CellContent::Empty);
    cells.set(2, 1, CellContent::Mine);
    minesweeper::base::build_numbers(&mut cells, 1);
    let start = Some((0, 0));
    let expected = [
        (EncodeType::Ascii, "@..\n..X"),
        (EncodeType::AsciiWithNumbers, "@11\n.1X"),
        (EncodeType::Base64, "CAMCAAAg"),
        (
            EncodeType::PttUrl,
            "https://pttacgfans.github.io/Minesweeper-ZiNi-Calculator/?b=32&m=0g",
        ),
        (EncodeType::LlamaUrl, "https://llamasweeper.com/#/game/board-editor?b=32&m=0g"),
    ];
    for (encode_type, text) in expected {
        assert_eq!(export_board(encode_type, &cells, start), text);
        let pack = import_board(encode_type, text).unwrap();
        assert_eq!(pack.cell_contents.data(), cells.data());
        assert_eq!(pack.mines, 1);
        let links = matches!(encode_type, EncodeType::PttUrl | EncodeType::LlamaUrl);
        assert_eq!(pack.start_position, if links { None } else { start });
        assert!(import_board(encode_type, "").is_none());
    }
}

#[test]
fn solver_runs_one_at_a_time() {
    let mut schedule = SolverSchedule::new();
    // nothing runs while the chances are not shown
    assert!(!schedule.update(SolverEvent::Changed));
    assert!(schedule.update(SolverEvent::SetEnabled(true)));
    assert!(schedule.in_progress);
    // a change during the run is owed one more run
    assert!(!schedule.update(SolverEvent::Changed));
    assert!(!schedule.update(SolverEvent::Changed));
    assert!(schedule.scheduled);
    assert!(schedule.update(SolverEvent::Completed));
    assert!(schedule.in_progress && !schedule.scheduled);
    assert!(!schedule.update(SolverEvent::Completed));
    assert!(!schedule.in_progress);
    assert!(schedule.update(SolverEvent::Changed));
    // switching off forgets everything
    schedule.update(SolverEvent::Changed);
    assert!(!schedule.update(SolverEvent::SetEnabled(false)));
    assert_eq!(schedule, SolverSchedule::new());
    assert!(!schedule.update(SolverEvent::Completed));
}

#[test]
fn one_run_of_the_solver() {
    let mut cells = Vec2D::filled(3, 1, CellState::Closed);
    cells.set(0, 0, CellState::Opening(1));
    let result = solve(&default_engine(), &cells, 1, false).unwrap();
    assert_eq!(result.get(1, 0), Some(&CellSafety::Mine));
    assert_eq!(result.get(2, 0), Some(&CellSafety::Safe));
    cells.set(0, 0, CellState::Opening(3));
    assert!(solve(&default_engine(), &cells, 1, false).is_err());
}

#[test]
fn dialogs_start_out_hidden_and_empty() {
    assert_eq!(Modal::default(), Modal::Hidden);
    assert_eq!(BaseWindow::default(), BaseWindow::Player);
    assert_eq!(ErrorModal::new().error_message, "");
    assert_eq!(EditorMessage {}, EditorMessage {});
    let config = ExportConfig { export_type: EncodeType::Base64 };
    assert_eq!(config.export_type, EncodeType::Base64);
    let messages = vec![
        ModalMessage::Export(ExportMessage::TypeSelected(EncodeType::Ascii)),
        ModalMessage::Import(ImportMessage::TextEdit(String::from("X."))),
        ModalMessage::Error(ErrorMessage::Acknowledge),
    ];
    match &messages[1] {
        ModalMessage::Import(ImportMessage::TextEdit(text)) => assert_eq!(text, "X."),
        other => panic!("unexpected {:?}", other),
    }
    assert_eq!(messages.len(), 3);
}
