use audio_visualizer::terminal::TerminalRenderer;

#[test]
fn renderer_keeps_height() {
    let renderer = TerminalRenderer::new(12);
    assert_eq!(renderer.height(), 12);
}

#[test]
fn frame_of_three_rows() {
    let renderer = TerminalRenderer::new(3);
    let frame = renderer.render(&vec![0, 2, 3]);
    let expected = "\x1b[2J\x1b[H".to_string()
        + "    █ \n"
        + "  █ █ \n"
        + "█ █ █ \n";
    assert_eq!(frame, expected);
}

#[test]
fn bottom_row_drawn_for_silent_bands() {
    let renderer = TerminalRenderer::new(2);
    let frame = renderer.render(&vec![0, 0]);
    assert_eq!(frame, "\x1b[2J\x1b[H    \n█ █ \n");
}

#[test]
fn level_beyond_height_fills_column() {
    let renderer = TerminalRenderer::new(2);
    let frame = renderer.render(&vec![7]);
    assert_eq!(frame, "\x1b[2J\x1b[H█ \n█ \n");
}

#[test]
fn level_equal_to_row_is_not_drawn() {
    // A band that reaches one row lights the bottom row only.
    let renderer = TerminalRenderer::new(3);
    let frame = renderer.render(&vec![1]);
    assert_eq!(frame, "\x1b[2J\x1b[H  \n  \n█ \n");
}

#[test]
fn zero_height_draws_only_the_clear_sequence() {
    let renderer = TerminalRenderer::new(0);
    assert_eq!(renderer.render(&vec![4, 5]), "\x1b[2J\x1b[H");
}

#[test]
fn no_bands_gives_empty_lines() {
    let renderer = TerminalRenderer::new(2);
    assert_eq!(renderer.render(&vec![]), "\x1b[2J\x1b[H\n\n");
}

#[test]
fn frame_length_matches_layout() {
    let renderer = TerminalRenderer::new(12);
    let cells: Vec<usize> = (0..24).map(|i| i % 13).collect();
    let frame = renderer.render(&cells);
    assert_eq!(frame.chars().count(), 7 + 12 * (2 * 24 + 1));
    assert_eq!(frame.lines().count(), 12);
}

#[test]
fn columns_are_solid_from_the_bottom() {
    let renderer = TerminalRenderer::new(5);
    let cells = vec![0, 1, 2, 3, 4, 5, 9];
    let frame = renderer.render(&cells);
    let body: Vec<Vec<char>> = frame["\x1b[2J\x1b[H".len()..]
        .lines()
        .map(|l| l.chars().collect())
        .collect();
    for (band, &level) in cells.iter().enumerate() {
        for (top_index, line) in body.iter().enumerate() {
            let row = 4 - top_index;
            let lit = line[2 * band] == '█';
            assert_eq!(lit, row == 0 || row < level, "band {band} row {row}");
        }
    }
}
