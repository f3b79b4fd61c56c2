use many_time_pad::app::{partial_decrypt, App};
use many_time_pad::event::InputEvent;

fn session() -> App {
    let ciphertexts = vec![
        vec![0x60, 0x61, 0x62, 0x63, 0x64, 0x65],
        vec![0x70, 0x71, 0x72],
        vec![0x50],
    ];
    let key = vec![Some(1), Some(2), None, Some(4), Some(5), Some(6), None, Some(8)];
    let mut app = App::new(ciphertexts, key, "out.json".to_string());
    (app.max_x, app.max_y) = (4, 9);
    app
}

fn state(app: &App) -> (Option<char>, [usize; 6], Vec<Vec<u8>>, Vec<Option<u8>>, String) {
    (
        app.input,
        [
            app.cursor_position_x,
            app.cursor_position_y,
            app.min_x,
            app.min_y,
            app.max_x,
            app.max_y,
        ],
        app.ciphertexts.clone(),
        app.partial_key.clone(),
        app.output.clone(),
    )
}

#[test]
fn new_session_starts_at_the_origin() {
    let app = App::new(vec![vec![1, 2]], vec![None, Some(3)], "result.json".to_string());
    assert_eq!(app.input, None);
    assert_eq!((app.cursor_position_x, app.cursor_position_y), (0, 0));
    assert_eq!((app.min_x, app.min_y, app.max_x, app.max_y), (0, 0, 0, 0));
    assert_eq!(app.ciphertexts, vec![vec![1, 2]]);
    assert_eq!(app.partial_key, vec![None, Some(3)]);
    assert_eq!(app.output, "result.json");
}

#[test]
fn move_right_wraps_to_the_first_column() {
    let mut app = session();
    app.cursor_position_x = 3;
    app.move_cursor_right();
    assert_eq!(app.cursor_position_x, 4);
    app.move_cursor_right();
    assert_eq!(app.cursor_position_x, 0);
    assert_eq!(app.cursor_position_y, 0);
}

#[test]
fn move_left_wraps_to_the_last_column() {
    let mut app = session();
    app.move_cursor_left();
    assert_eq!(app.cursor_position_x, 4);
    app.move_cursor_left();
    assert_eq!(app.cursor_position_x, 3);
}

#[test]
fn move_down_and_up_wrap() {
    let mut app = session();
    app.move_cursor_up();
    assert_eq!(app.cursor_position_y, 9);
    app.move_cursor_down();
    assert_eq!(app.cursor_position_y, 0);
    app.move_cursor_down();
    assert_eq!(app.cursor_position_y, 1);
    assert_eq!(app.cursor_position_x, 0);
}

#[test]
fn moves_are_cyclic() {
    for start in 0..=4usize {
        let mut app = session();
        app.cursor_position_x = start;
        for k in 1..=12usize {
            app.move_cursor_right();
            assert_eq!(app.cursor_position_x, (start + k) % 5);
        }
        app.cursor_position_x = start;
        for _ in 0..5 {
            app.move_cursor_left();
        }
        assert_eq!(app.cursor_position_x, start);
    }
    for start in 0..=9usize {
        let mut app = session();
        app.cursor_position_y = start;
        for _ in 0..10 {
            app.move_cursor_down();
        }
        assert_eq!(app.cursor_position_y, start);
        for k in 1..=10usize {
            app.move_cursor_up();
            assert_eq!(app.cursor_position_y, (start + 10 - k) % 10);
        }
    }
}

#[test]
fn home_and_end() {
    let mut app = session();
    (app.cursor_position_x, app.cursor_position_y) = (2, 3);
    app.move_cursor_end();
    assert_eq!((app.cursor_position_x, app.cursor_position_y), (4, 3));
    app.move_cursor_home();
    assert_eq!((app.cursor_position_x, app.cursor_position_y), (0, 3));
}

#[test]
fn move_to_position_inside_the_bounds() {
    let mut app = session();
    (app.min_x, app.min_y) = (3, 2);
    app.move_cursor_to_position(4, 7);
    assert_eq!((app.cursor_position_x, app.cursor_position_y), (1, 5));
    app.move_cursor_to_position(3, 2);
    assert_eq!((app.cursor_position_x, app.cursor_position_y), (0, 0));
    app.move_cursor_to_position(4, 9);
    assert_eq!((app.cursor_position_x, app.cursor_position_y), (1, 7));
}

#[test]
fn move_to_position_outside_the_bounds_changes_nothing() {
    let mut app = session();
    (app.min_x, app.min_y) = (3, 2);
    (app.cursor_position_x, app.cursor_position_y) = (1, 1);
    let before = state(&app);
    for (x, y) in [(2, 5), (5, 5), (4, 1), (4, 10), (0, 0), (usize::MAX, 3), (3, usize::MAX)] {
        app.move_cursor_to_position(x, y);
        assert_eq!(state(&app), before);
    }
}

#[test]
fn enter_char_sets_the_key_at_the_mapped_offset() {
    let mut app = session();
    // Row 1 of the first ciphertext, column 1: offset 1 * 4 + 1 = 5.
    (app.cursor_position_x, app.cursor_position_y) = (1, 1);
    app.enter_char('e');
    assert_eq!(app.partial_key[5], Some(0x65 ^ b'e'));
    assert_eq!(app.input, Some('e'));
    assert_eq!((app.cursor_position_x, app.cursor_position_y), (2, 1));
    assert_eq!(
        app.partial_key,
        vec![Some(1), Some(2), None, Some(4), Some(5), Some(0), None, Some(8)]
    );
}

#[test]
fn enter_char_in_a_later_ciphertext_uses_its_own_offset() {
    let mut app = session();
    // The first ciphertext takes two rows, so row 2 is the second one.
    (app.cursor_position_x, app.cursor_position_y) = (2, 2);
    app.enter_char('A');
    assert_eq!(app.partial_key[2], Some(0x72 ^ 0x41));
    assert_eq!((app.cursor_position_x, app.cursor_position_y), (3, 2));
}

#[test]
fn enter_char_wraps_the_cursor() {
    let mut app = session();
    (app.cursor_position_x, app.cursor_position_y) = (4, 0);
    app.enter_char('x');
    assert_eq!(app.partial_key[4], Some(0x64 ^ b'x'));
    assert_eq!((app.cursor_position_x, app.cursor_position_y), (0, 0));
}

#[test]
fn enter_char_keeps_the_low_byte_of_a_wide_character() {
    let mut app = session();
    app.enter_char('\u{20ac}');
    assert_eq!(app.partial_key[0], Some(0x60 ^ 0xac));
    assert_eq!(app.input, Some('\u{20ac}'));
}

#[test]
fn enter_char_off_target_changes_nothing() {
    // Beyond the end of the ciphertext under the cursor.
    let mut app = session();
    (app.cursor_position_x, app.cursor_position_y) = (3, 2);
    let before = state(&app);
    app.enter_char('a');
    assert_eq!(state(&app), before);
    // Below every ciphertext.
    (app.cursor_position_x, app.cursor_position_y) = (0, 7);
    let before = state(&app);
    app.enter_char('a');
    assert_eq!(state(&app), before);
    // On a byte for which the key has no slot.
    let mut app = App::new(vec![vec![9; 12]], vec![None; 3], String::new());
    (app.max_x, app.max_y) = (4, 9);
    (app.cursor_position_x, app.cursor_position_y) = (3, 0);
    let before = state(&app);
    app.enter_char('a');
    assert_eq!(state(&app), before);
    // An offset that no machine word holds.
    let mut app = App::new(vec![vec![9; 12]], vec![None; 3], String::new());
    (app.max_x, app.max_y) = (4, 9);
    (app.cursor_position_x, app.cursor_position_y) = (usize::MAX, 1);
    let before = state(&app);
    app.enter_char('a');
    assert_eq!(state(&app), before);
}

#[test]
fn delete_char_clears_the_slot_at_the_column() {
    let mut app = session();
    (app.cursor_position_x, app.cursor_position_y) = (3, 1);
    app.delete_char(false);
    assert_eq!(app.partial_key[3], None);
    assert_eq!((app.cursor_position_x, app.cursor_position_y), (3, 1));
    assert_eq!(
        app.partial_key,
        vec![Some(1), Some(2), None, None, Some(5), Some(6), None, Some(8)]
    );
}

#[test]
fn delete_char_can_step_back() {
    let mut app = session();
    (app.cursor_position_x, app.cursor_position_y) = (1, 0);
    app.delete_char(true);
    assert_eq!(app.partial_key[1], None);
    assert_eq!((app.cursor_position_x, app.cursor_position_y), (0, 0));
}

#[test]
fn delete_char_in_the_first_column_changes_nothing() {
    let mut app = session();
    (app.cursor_position_x, app.cursor_position_y) = (0, 1);
    let before = state(&app);
    app.delete_char(true);
    assert_eq!(state(&app), before);
    app.delete_char(false);
    assert_eq!(state(&app), before);
}

#[test]
fn delete_char_without_a_slot_changes_nothing() {
    let mut app = App::new(vec![vec![9; 12]], vec![Some(1), Some(2)], String::new());
    (app.max_x, app.max_y) = (4, 9);
    (app.cursor_position_x, app.cursor_position_y) = (2, 0);
    let before = state(&app);
    app.delete_char(true);
    assert_eq!(state(&app), before);
}

#[test]
fn partial_decrypt_shows_printable_bytes_only() {
    let key = vec![Some(0x01), None, Some(0x00), Some(0xff), Some(0x40), Some(0x1f)];
    let ciphertext = vec![0x60, 0x61, 0x62, 0x63, 0x60, 0x60, 0x60];
    assert_eq!(
        partial_decrypt(&key, &ciphertext),
        vec![Some('a'), None, Some('b'), None, Some(' '), None, None]
    );
}

#[test]
fn partial_decrypt_bounds_of_the_printable_range() {
    let key = vec![Some(0); 4];
    assert_eq!(
        partial_decrypt(&key, &vec![0x1f, 0x20, 0x7e, 0x7f]),
        vec![None, Some(' '), Some('~'), None]
    );
}

#[test]
fn partial_decrypt_has_a_cell_for_each_byte() {
    assert_eq!(
        partial_decrypt(&vec![Some(0)], &vec![0x61, 0x62]),
        vec![Some('a'), None]
    );
    assert_eq!(
        partial_decrypt(&vec![], &vec![b'a', b'b', b'c']),
        vec![None, None, None]
    );
    assert_eq!(
        partial_decrypt(&vec![Some(0), Some(0)], &vec![]),
        Vec::<Option<char>>::new()
    );
    for slots in 0..6usize {
        for bytes in 0..6usize {
            let row = partial_decrypt(&vec![Some(0x01); slots], &vec![0x60; bytes]);
            assert_eq!(row.len(), bytes);
            for (i, cell) in row.iter().enumerate() {
                assert_eq!(*cell, if i < slots { Some('a') } else { None });
            }
        }
    }
}

#[test]
fn decrypted_rows_reach_beyond_the_key() {
    let mut app = App::new(
        vec![vec![0x60, 0x61, 0x62], vec![0x70], vec![]],
        vec![Some(1), None],
        String::new(),
    );
    (app.max_x, app.max_y) = (4, 9);
    assert_eq!(
        app.decrypted_rows(),
        vec![vec![Some('a'), None, None], vec![Some('q')], vec![]]
    );
}

#[test]
fn enter_char_without_a_width_changes_nothing() {
    let mut app = App::new(vec![vec![9; 12]], vec![None; 12], String::new());
    let before = state(&app);
    app.enter_char('a');
    assert_eq!(state(&app), before);
    assert!(!app.handle_event(InputEvent::Character('a')));
    assert_eq!(state(&app), before);
    let mut app = App::new(vec![], vec![], String::new());
    let before = state(&app);
    app.enter_char('a');
    assert_eq!(state(&app), before);
}

#[test]
fn decrypted_rows_has_a_row_for_each_ciphertext() {
    let app = session();
    assert_eq!(
        app.decrypted_rows(),
        vec![
            vec![Some('a'), Some('c'), None, Some('g'), Some('a'), Some('c')],
            vec![Some('q'), Some('s'), None],
            vec![Some('Q')],
        ]
    );
}

#[test]
fn entered_character_shows_in_the_decryption() {
    for (x, y, row, offset) in [(0usize, 0usize, 0usize, 0usize), (1, 1, 0, 5), (2, 2, 1, 2), (0, 3, 2, 0)] {
        for c in [' ', 'a', 'Z', '~', '0'] {
            let mut app = session();
            (app.cursor_position_x, app.cursor_position_y) = (x, y);
            assert_eq!(app.get_ciphertext_position(), (row, offset));
            let before = app.decrypted_rows();
            app.enter_char(c);
            let after = app.decrypted_rows();
            assert_eq!(after[row][offset], Some(c));
            for (i, cells) in after.iter().enumerate() {
                for (o, cell) in cells.iter().enumerate() {
                    if o != offset {
                        assert_eq!(*cell, before[i][o]);
                    }
                }
            }
        }
    }
}

#[test]
fn set_viewport_leaves_out_the_frame() {
    let mut app = session();
    app.set_viewport(2, 2, 76, 16);
    assert_eq!((app.min_x, app.min_y, app.max_x, app.max_y), (3, 3, 73, 13));
    app.set_viewport(0, 0, 1, 1);
    assert_eq!((app.min_x, app.min_y, app.max_x, app.max_y), (1, 1, 0, 0));
    app.set_viewport(65534, 0, 65535, 65535);
    assert_eq!((app.min_x, app.min_y, app.max_x, app.max_y), (65535, 1, 0, 65534));
}

#[test]
fn events_reach_their_operations() {
    let mut app = session();
    (app.min_x, app.min_y) = (1, 1);
    assert!(!app.handle_event(InputEvent::Right));
    assert_eq!(app.cursor_position_x, 1);
    assert!(!app.handle_event(InputEvent::Down));
    assert_eq!(app.cursor_position_y, 1);
    assert!(!app.handle_event(InputEvent::Left));
    assert_eq!(app.cursor_position_x, 0);
    assert!(!app.handle_event(InputEvent::Up));
    assert_eq!(app.cursor_position_y, 0);
    assert!(!app.handle_event(InputEvent::End));
    assert_eq!(app.cursor_position_x, 4);
    assert!(!app.handle_event(InputEvent::Home));
    assert_eq!(app.cursor_position_x, 0);
    assert!(!app.handle_event(InputEvent::Jump { column: 3, row: 1 }));
    assert_eq!((app.cursor_position_x, app.cursor_position_y), (2, 0));
    assert!(!app.handle_event(InputEvent::Character('k')));
    assert_eq!(app.partial_key[2], Some(0x62 ^ b'k'));
    assert_eq!(app.cursor_position_x, 3);
    assert!(!app.handle_event(InputEvent::DeleteRight));
    assert_eq!(app.partial_key[3], None);
    assert_eq!(app.cursor_position_x, 3);
    assert!(!app.handle_event(InputEvent::DeleteLeft));
    assert_eq!(app.cursor_position_x, 2);
    let before = state(&app);
    assert!(!app.handle_event(InputEvent::Other));
    assert_eq!(state(&app), before);
    assert!(!app.handle_event(InputEvent::Jump { column: 0, row: 0 }));
    assert_eq!(state(&app), before);
    assert!(app.handle_event(InputEvent::Terminate));
    assert_eq!(state(&app), before);
}
