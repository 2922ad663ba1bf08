use rectangle_eraser::field::{FieldError, EMPTY, FIELD_H, FIELD_W};
use rectangle_eraser::model::{
    load_commands, Bullet, Command, Direction, ErasingEffect, Game, Point, Sound, ERASING,
    MOVE_WAIT, SCROLL_WAIT, SHOOT_WAIT,
};

fn game_with_stage(rows: usize) -> Game {
    let mut g = Game::new();
    let mut text = String::new();
    for i in 0..rows {
        text.push_str(&format!("{}\n", (b'a' + (i % 26) as u8) as char));
    }
    g.load_stage(&text).unwrap();
    g
}

fn fill_rect(g: &mut Game, left: usize, top: usize, right: usize, bottom: usize, c: char) {
    for y in top..=bottom {
        for x in left..=right {
            if x == left || x == right || y == top || y == bottom {
                g.field.set(x, y, c);
            }
        }
    }
}

fn crashes(g: &Game) -> usize {
    g.requested_sounds.iter().filter(|s| **s == Sound::Crash).count()
}

#[test]
fn command_from_str_names() {
    assert_eq!(Command::from_str("Left"), Command::Left);
    assert_eq!(Command::from_str("Right"), Command::Right);
    assert_eq!(Command::from_str("Up"), Command::Up);
    assert_eq!(Command::from_str("Shoot"), Command::Shoot);
    assert_eq!(Command::from_str("None"), Command::Idle);
    assert_eq!(Command::from_str("left"), Command::Idle);
    assert_eq!(Command::from_str(""), Command::Idle);
}

#[test]
fn load_commands_reads_lines() {
    assert_eq!(
        load_commands("Left\nShoot\nNone\r\nUp\nRight"),
        vec![Command::Left, Command::Shoot, Command::Idle, Command::Up, Command::Right]
    );
    assert!(load_commands("").is_empty());
}

#[test]
fn point_and_bullet_new() {
    assert_eq!(Point::new(3, 4), Point { x: 3, y: 4 });
    let b = Bullet::new(7);
    assert_eq!(b.pos, Point::new(7, FIELD_H - 2));
    assert_eq!(b.offset_y, 0);
    assert!(b.exist);
}

#[test]
fn direction_turns_clockwise() {
    assert_eq!(Direction::Right.turned(), Direction::Down);
    assert_eq!(Direction::Down.turned(), Direction::Left);
    assert_eq!(Direction::Left.turned(), Direction::Up);
    assert_eq!(Direction::Up.turned(), Direction::Right);
}

#[test]
fn new_game_defaults() {
    let g = Game::new();
    assert!(!g.is_over && !g.is_clear && !g.is_debug);
    assert_eq!(g.frame, -1);
    assert_eq!(g.player_x, FIELD_W / 2);
    assert_eq!(g.scroll_wait, SCROLL_WAIT);
    assert_eq!(g.score, 0);
    assert!(g.is_field_empty());
    assert!(g.can_update());
}

#[test]
fn toggle_debug_flips() {
    let mut g = Game::new();
    g.toggle_debug();
    assert!(g.is_debug);
    g.toggle_debug();
    assert!(!g.is_debug);
}

#[test]
fn load_stage_pads_rows_and_sets_cursor() {
    let mut g = Game::new();
    g.load_stage("ab\n0123456789abcdefXYZ\n").unwrap();
    assert_eq!(g.stage.len(), 2);
    assert_eq!(g.next_row, 1);
    assert_eq!(g.stage[0].len(), FIELD_W);
    assert_eq!(g.stage[0][0], 'a');
    assert_eq!(g.stage[0][2], EMPTY);
    assert_eq!(g.stage[1][15], 'f');
}

#[test]
fn load_stage_rejects_empty_stage() {
    let mut g = Game::new();
    assert_eq!(g.load_stage(""), Err(FieldError::MalformedStageData));
    assert!(g.stage.is_empty());
}

#[test]
fn scroll_brings_in_last_stage_row() {
    let mut g = game_with_stage(3);
    g.field.set(4, 5, 'q');
    g.scroll();
    assert_eq!(g.next_row, 1);
    assert_eq!(g.field.get(0, 0), 'c');
    assert_eq!(g.field.get(1, 0), EMPTY);
    assert_eq!(g.field.get(4, 6), 'q');
    assert_eq!(g.field.get(4, 5), EMPTY);
    g.scroll();
    assert_eq!(g.field.get(0, 0), 'b');
    assert_eq!(g.field.get(0, 1), 'c');
    assert_eq!(g.next_row, 0);
}

#[test]
fn scroll_keeps_erasing_cells() {
    let mut g = game_with_stage(3);
    g.field.set(3, 4, ERASING);
    g.field.set(3, 3, 'k');
    g.field.set(6, 0, ERASING);
    g.field.set(7, 6, 'm');
    g.scroll();
    assert_eq!(g.field.get(3, 4), ERASING);
    assert_eq!(g.field.get(3, 5), EMPTY);
    assert_eq!(g.field.get(3, 3), EMPTY);
    assert_eq!(g.field.get(6, 0), ERASING);
    assert_eq!(g.field.get(6, 1), EMPTY);
    assert_eq!(g.field.get(7, 7), 'm');
}

#[test]
fn scroll_waits_for_active_erasure() {
    let mut g = game_with_stage(3);
    g.field.set(2, 2, ERASING);
    g.erasing_effects.push(ErasingEffect {
        exist: true,
        cursor: Point::new(2, 2),
        erase_wait: 1,
        dir: Direction::Up,
        left: 2,
        top: 2,
        right: 2,
        bottom: 2,
    });
    g.scroll();
    assert_eq!(g.next_row, 2);
    assert_eq!(g.field.get(2, 2), ERASING);
    assert_eq!(g.field.get(0, 0), EMPTY);
}

#[test]
fn empty_field_forces_scroll() {
    let mut g = game_with_stage(4);
    g.scroll_wait = 17;
    g.update(Command::Idle);
    assert_eq!(g.next_row, 2);
    assert_eq!(g.field.get(0, 0), 'd');
    assert_eq!(g.scroll_wait, SCROLL_WAIT);
}

#[test]
fn up_hastens_scroll() {
    let mut g = game_with_stage(4);
    g.field.set(0, 3, 'z');
    g.update(Command::Up);
    assert_eq!(g.scroll_wait, 4);
    g.update(Command::Up);
    assert_eq!(g.scroll_wait, 3);
    for _ in 0..3 {
        g.update(Command::Idle);
    }
    assert_eq!(g.scroll_wait, SCROLL_WAIT);
    assert_eq!(g.field.get(0, 4), 'z');
    assert_eq!(g.next_row, 2);
}

#[test]
fn shoot_during_cooldown_is_ignored() {
    let mut g = game_with_stage(4);
    g.field.set(0, 3, 'z');
    g.shoot_wait = 3;
    g.update(Command::Shoot);
    assert!(g.bullets.is_empty());
    assert_eq!(g.shoot_wait, 2);
    assert_eq!(g.scroll_wait, SCROLL_WAIT - 1);
    assert!(!g.requested_sounds.contains(&Sound::Shoot));
}

#[test]
fn shoot_spawns_bullet_and_sound() {
    let mut g = game_with_stage(4);
    g.field.set(0, 3, 'z');
    g.update(Command::Shoot);
    assert_eq!(g.bullets.len(), 1);
    assert_eq!(g.bullets[0].pos, Point::new(FIELD_W / 2, FIELD_H - 2));
    assert_eq!(g.shoot_wait, SHOOT_WAIT);
    assert_eq!(g.requested_sounds, vec![Sound::Shoot]);
}

#[test]
fn shoot_respects_bullet_cap() {
    let mut g = Game::new();
    for _ in 0..4 {
        g.bullets.push(Bullet::new(0));
    }
    g.shoot();
    assert_eq!(g.bullets.len(), 4);
    assert_eq!(g.shoot_wait, 0);
    g.bullets.pop();
    g.shoot();
    assert_eq!(g.bullets.len(), 4);
    assert_eq!(g.shoot_wait, SHOOT_WAIT);
}

#[test]
fn stage_end_clears() {
    let mut g = game_with_stage(3);
    g.next_row = 0;
    g.field.set(5, 5, 'x');
    let before = g.field.cells.clone();
    g.scroll();
    assert!(g.is_clear);
    assert_eq!(g.field.cells, before);
    assert_eq!(g.get_progress(), 100);
}

#[test]
fn cleared_game_is_frozen() {
    let mut g = game_with_stage(3);
    g.is_clear = true;
    g.field.set(5, 5, 'x');
    let sw = g.scroll_wait;
    g.update(Command::Shoot);
    assert_eq!(g.frame, 0);
    assert!(g.bullets.is_empty());
    assert_eq!(g.scroll_wait, sw);
}

#[test]
fn bottom_row_ends_game() {
    let mut g = game_with_stage(4);
    g.field.set(2, FIELD_H - 1, 'a');
    g.field.set(9, FIELD_H - 1, 'b');
    g.update(Command::Idle);
    assert!(g.is_over);
    assert_eq!(crashes(&g), 2);
    g.update(Command::Idle);
    assert_eq!(crashes(&g), 2);
}

#[test]
fn check_gameover_counts_columns() {
    let mut g = Game::new();
    g.check_gameover();
    assert!(!g.is_over);
    assert!(g.requested_sounds.is_empty());
    for x in 0..FIELD_W {
        g.field.set(x, FIELD_H - 1, 'w');
    }
    g.check_gameover();
    assert!(g.is_over);
    assert_eq!(crashes(&g), FIELD_W);
}

#[test]
fn player_moves_after_animation() {
    let mut g = game_with_stage(4);
    g.field.set(0, 3, 'z');
    let x0 = g.player_x;
    g.update(Command::Right);
    assert_eq!(g.move_wait, MOVE_WAIT);
    assert_eq!(g.move_dir, Direction::Right);
    g.update(Command::Idle);
    g.update(Command::Idle);
    assert_eq!(g.player_x, x0);
    g.update(Command::Idle);
    assert_eq!(g.player_x, x0 + 1);
    assert_eq!(g.move_wait, 0);
}

#[test]
fn player_stays_on_grid() {
    let mut g = Game::new();
    g.player_x = 0;
    g.start_move_player(Command::Left);
    assert_eq!(g.move_wait, 0);
    g.player_x = FIELD_W - 1;
    g.start_move_player(Command::Right);
    assert_eq!(g.move_wait, 0);
    g.start_move_player(Command::Left);
    assert_eq!(g.move_wait, MOVE_WAIT);
    assert_eq!(g.move_dir, Direction::Left);
    g.start_move_player(Command::Right);
    assert_eq!(g.move_dir, Direction::Left);
    for _ in 0..3 {
        g.move_player();
    }
    assert_eq!(g.player_x, FIELD_W - 2);
}

#[test]
fn bullet_climbs_and_fixes_under_label() {
    let mut g = game_with_stage(4);
    g.player_x = 5;
    g.field.set(5, 10, '7');
    g.update(Command::Shoot);
    assert_eq!(g.bullets.len(), 1);
    for k in 1..5 {
        g.update(Command::Idle);
        assert_eq!(g.bullets.len(), 1);
        assert_eq!(g.bullets[0].pos, Point::new(5, FIELD_H - 2 - k));
    }
    g.update(Command::Idle);
    assert!(g.bullets.is_empty());
    assert_eq!(g.field.get(5, 11), '7');
    assert!(g.requested_sounds.contains(&Sound::Hit));
}

#[test]
fn bullet_leaves_at_top() {
    let mut g = Game::new();
    g.bullets.push(Bullet {
        pos: Point::new(3, 0),
        offset_y: 0,
        exist: true,
    });
    g.update_bullets();
    assert!(!g.bullets[0].exist);
    assert_eq!(g.field.get(3, 0), EMPTY);
}

#[test]
fn is_collide_looks_above() {
    let mut g = Game::new();
    g.field.set(4, 7, 'r');
    assert!(g.is_collide(&Bullet { pos: Point::new(4, 8), offset_y: 0, exist: true }));
    assert!(!g.is_collide(&Bullet { pos: Point::new(4, 9), offset_y: 0, exist: true }));
    assert!(!g.is_collide(&Bullet { pos: Point::new(4, 0), offset_y: 0, exist: true }));
}

#[test]
fn spiral_erases_rectangle_cell_by_cell() {
    let mut g = Game::new();
    fill_rect(&mut g, 4, 6, 6, 7, 'r');
    g.erase_rectangle(Point::new(5, 7));
    assert_eq!(g.erasing_effects.len(), 1);
    assert_eq!(g.erasing_effects[0].cursor, Point::new(4, 7));
    for y in 6..=7 {
        for x in 4..=6 {
            assert_eq!(g.field.get(x, y), ERASING);
        }
    }
    let mut visited = Vec::new();
    let mut steps = 0;
    while g.erasing_effects[0].exist && steps < 100 {
        let e = g.erasing_effects[0];
        if e.erase_wait == 0 {
            visited.push(e.cursor);
        }
        g.update_erasing_effects();
        steps += 1;
    }
    assert_eq!(
        visited,
        vec![
            Point::new(4, 7),
            Point::new(4, 6),
            Point::new(5, 6),
            Point::new(6, 6),
            Point::new(6, 7),
            Point::new(5, 7)
        ]
    );
    assert_eq!(g.score, 6);
    for y in 6..=7 {
        for x in 4..=6 {
            assert_eq!(g.field.get(x, y), EMPTY);
        }
    }
    let erases = g.requested_sounds.iter().filter(|s| **s == Sound::Erase).count();
    assert_eq!(erases, 6);
}

#[test]
fn spiral_on_larger_rectangle_scores_area() {
    let mut g = Game::new();
    fill_rect(&mut g, 2, 3, 6, 8, 'q');
    g.erase_rectangle(Point::new(2, 3));
    assert_eq!(g.erasing_effects.len(), 1);
    for _ in 0..200 {
        g.update_erasing_effects();
    }
    assert!(!g.erasing_effects[0].exist);
    assert_eq!(g.score, 30);
    for y in 3..=8 {
        for x in 2..=6 {
            assert_eq!(g.field.get(x, y), EMPTY);
        }
    }
}

#[test]
fn erase_rectangle_without_rectangle_does_nothing() {
    let mut g = Game::new();
    g.field.set(3, 3, 'a');
    g.erase_rectangle(Point::new(3, 3));
    assert!(g.erasing_effects.is_empty());
    assert_eq!(g.field.get(3, 3), 'a');
}

#[test]
fn sight_position() {
    let mut g = Game::new();
    g.player_x = 6;
    assert_eq!(g.get_sight_pos(), None);
    g.field.set(6, 9, 'h');
    assert_eq!(g.get_sight_pos(), Some(Point::new(6, 10)));
    g.field.set(6, 12, ERASING);
    assert_eq!(g.get_sight_pos(), Some(Point::new(6, 10)));
    g.field.set(6, 14, 'k');
    assert_eq!(g.get_sight_pos(), Some(Point::new(6, 15)));
    g.field.set(6, 15, ERASING);
    assert_eq!(g.get_sight_pos(), None);
}

#[test]
fn progress_percent() {
    let mut g = game_with_stage(10);
    assert_eq!(g.get_progress(), 10);
    g.next_row = 3;
    assert_eq!(g.get_progress(), 70);
    g.next_row = 0;
    assert_eq!(g.get_progress(), 100);
    let mut h = game_with_stage(3);
    h.next_row = 1;
    assert_eq!(h.get_progress(), 66);
    h.is_clear = true;
    assert_eq!(h.get_progress(), 100);
}

#[test]
fn replay_overrides_input() {
    let mut g = game_with_stage(4);
    g.field.set(0, 3, 'z');
    g.load_replay(vec![Command::Shoot, Command::Left]);
    assert_eq!(g.update(Command::Right), Command::Shoot);
    assert_eq!(g.bullets.len(), 1);
    assert_eq!(g.update(Command::Right), Command::Left);
    assert_eq!(g.move_dir, Direction::Left);
    assert_eq!(g.update(Command::Shoot), Command::Idle);
}

#[test]
fn live_input_without_replay() {
    let mut g = game_with_stage(4);
    g.field.set(0, 3, 'z');
    assert_eq!(g.update(Command::Up), Command::Up);
    assert_eq!(g.frame, 0);
}

#[test]
fn field_empty_query() {
    let mut g = Game::new();
    assert!(g.is_field_empty());
    g.field.set(15, 17, 'e');
    assert!(!g.is_field_empty());
}
