use chromashell::effects::{effect_index, effect_names, idx, overlay_text, Cell, TextGrid};
use chromashell::lightning::{bolt_cell, bolt_glow, bolt_path, bolt_segments, BoltBranch, BoltStep};
use chromashell::matrix::{
    drop_trail, flicker_at, flicker_trail, light_cell, show_unlit_text, trail_from_picks,
    trail_len_limit,
};
use chromashell::rain::{rain_splash, rain_trail_cell};

fn rows(g: &TextGrid) -> Vec<String> {
    g.chars.iter().map(|r| r.iter().collect()).collect()
}

#[test]
fn names_of_all_effects() {
    assert_eq!(
        effect_names(),
        vec![
            "plasma", "fire", "matrix", "galaxy", "metaballs", "snow", "rain", "autumn", "aurora",
            "fireflies", "ocean", "lightning", "retro"
        ]
    );
}

#[test]
fn blank_cell() {
    let c = Cell::blank();
    assert_eq!(c.ch, ' ');
    assert_eq!(c.fg, (0, 0, 0));
    assert_eq!(c.bg, (0, 0, 0));
}

#[test]
fn text_is_cut_and_padded_to_the_grid() {
    let g = TextGrid::from_text("ab\r\ncd\n\nxyz", 2, 5);
    assert_eq!(g.width, 2);
    assert_eq!(g.height, 5);
    assert_eq!(rows(&g), vec!["ab", "cd", "  ", "xy", "  "]);
}

#[test]
fn lone_carriage_return_stays_in_the_line() {
    let g = TextGrid::from_text("a\rb", 4, 1);
    assert_eq!(g.chars, vec![vec!['a', '\r', 'b', ' ']]);
    let g = TextGrid::from_text("a\r", 3, 1);
    assert_eq!(g.chars, vec![vec!['a', '\r', ' ']]);
}

#[test]
fn final_line_ending_is_optional() {
    let g = TextGrid::from_text("x\n", 1, 2);
    assert_eq!(rows(&g), vec!["x", " "]);
    let g = TextGrid::from_text("", 2, 1);
    assert_eq!(rows(&g), vec!["  "]);
    let g = TextGrid::from_text("\n\nz", 1, 3);
    assert_eq!(rows(&g), vec![" ", " ", "z"]);
}

#[test]
fn wide_characters_take_one_cell() {
    let g = TextGrid::from_text("é█z", 2, 1);
    assert_eq!(g.chars, vec![vec!['é', '█']]);
}

#[test]
fn char_at_and_has_char() {
    let g = TextGrid::from_text("a b\nc", 3, 2);
    assert_eq!(g.char_at(0, 0), 'a');
    assert_eq!(g.char_at(1, 0), ' ');
    assert_eq!(g.char_at(0, 1), 'c');
    assert_eq!(g.char_at(5, 0), ' ');
    assert_eq!(g.char_at(0, 9), ' ');
    assert!(g.has_char(0, 0));
    assert!(!g.has_char(1, 0));
    assert!(g.has_char(2, 0));
    assert!(!g.has_char(7, 7));
}

#[test]
fn char_at_tolerates_ragged_rows() {
    let g = TextGrid { chars: vec![vec!['a'], vec![]], width: 3, height: 3 };
    assert_eq!(g.char_at(0, 0), 'a');
    assert_eq!(g.char_at(1, 0), ' ');
    assert_eq!(g.char_at(0, 1), ' ');
    assert_eq!(g.char_at(0, 2), ' ');
}

#[test]
fn index_of_a_cell() {
    assert_eq!(idx(10, 3, 2), 23);
    assert_eq!(idx(0, 0, 5), 0);
}

#[test]
fn text_is_drawn_over_the_frame() {
    let g = TextGrid::from_text("a b\n  c", 3, 2);
    let dot = Cell { ch: '.', fg: (1, 1, 1), bg: (2, 2, 2) };
    let mut cells = vec![dot; 6];
    overlay_text(&mut cells, &g, 3, 2, (9, 8, 7), (0, 0, 3));
    let chars: String = cells.iter().map(|c| c.ch).collect();
    assert_eq!(chars, "a.b..c");
    assert_eq!(cells[0].fg, (9, 8, 7));
    assert_eq!(cells[0].bg, (0, 0, 3));
    assert_eq!(cells[1].fg, (1, 1, 1));
    assert_eq!(cells[5].bg, (0, 0, 3));
}

fn blank_frame(n: usize) -> Vec<Cell> {
    vec![Cell::blank(); n]
}

#[test]
fn raindrop_splashes_on_the_bottom_row() {
    let mut cells = blank_frame(6);
    rain_splash(&mut cells, &None, 3, 2, 1, 1, 90);
    assert_eq!(cells[4].ch, '~');
    assert_eq!(cells[4].fg, (30, 45, 90));
    assert_eq!(cells[3].ch, '·');
    assert_eq!(cells[3].fg, (18, 22, 45));
    assert_eq!(cells[5].ch, '·');
    assert_eq!(cells[1].ch, ' ');
}

#[test]
fn splash_only_near_the_bottom() {
    for head in [0, 4, -3] {
        let mut cells = blank_frame(6);
        rain_splash(&mut cells, &None, 3, 2, 1, head, 90);
        assert!(cells.iter().all(|c| c.ch == ' '));
    }
    let mut cells = blank_frame(6);
    rain_splash(&mut cells, &None, 3, 2, 0, 3, 90);
    assert_eq!(cells[3].ch, '~');
    assert_eq!(cells[4].ch, '·');
}

#[test]
fn splash_spares_text_and_drawn_cells() {
    let g = TextGrid::from_text("\nx", 3, 2);
    let mut cells = blank_frame(6);
    rain_splash(&mut cells, &Some(g.clone()), 3, 2, 0, 1, 90);
    assert!(cells.iter().all(|c| c.ch == ' '));
    let mut cells = blank_frame(6);
    rain_splash(&mut cells, &Some(g), 3, 2, 1, 1, 90);
    assert_eq!(cells[4].ch, '~');
    assert_eq!(cells[3].ch, ' ');
    assert_eq!(cells[5].ch, '·');
    let mut cells = blank_frame(6);
    cells[5].ch = '|';
    rain_splash(&mut cells, &None, 3, 2, 1, 2, 90);
    assert_eq!(cells[5].ch, '|');
    assert_eq!(cells[3].ch, '·');
}

#[test]
fn bolts_stay_on_the_grid() {
    let mut rng = rand::thread_rng();
    for &(w, h) in &[(2usize, 3usize), (20, 10), (80, 40), (5, 60)] {
        for _ in 0..200 {
            let segs = bolt_segments(&mut rng, w, h);
            assert!(!segs.is_empty());
            assert_eq!(segs[0].1, 0);
            assert!(w / 4 <= segs[0].0 && segs[0].0 < 3 * w / 4);
            assert!(segs.iter().all(|&(x, y)| x < w && y < h));
        }
    }
}

#[test]
fn trails_have_bounded_length_and_pool_characters() {
    let mut rng = rand::thread_rng();
    let pool = vec!['x', 'y', 'z'];
    for &(h, bound) in &[(1usize, 5usize), (5, 5), (12, 12), (30, 30), (200, 30)] {
        for _ in 0..100 {
            let t = drop_trail(&mut rng, h, &pool);
            assert!(4 <= t.len() && t.len() < bound);
            assert!(t.iter().all(|c| pool.contains(c)));
        }
    }
}

#[test]
fn flicker_changes_at_most_one_character() {
    let mut rng = rand::thread_rng();
    let pool = vec!['#'];
    let mut changed_once = false;
    for _ in 0..2000 {
        let mut t = vec!['a', 'b', 'c', 'd'];
        flicker_trail(&mut rng, &mut t, &pool);
        assert_eq!(t.len(), 4);
        let diff = t.iter().zip(['a', 'b', 'c', 'd'].iter()).filter(|(x, y)| x != y).count();
        assert!(diff <= 1);
        assert!(t.iter().all(|c| "abcd#".contains(*c)));
        changed_once |= diff == 1;
    }
    assert!(changed_once);
}

#[test]
fn unlit_text_shows_through() {
    let g = TextGrid::from_text("ab", 3, 1);
    let lit = Cell { ch: 'Z', fg: (0, 200, 0), bg: (0, 0, 0) };
    let dim = Cell { ch: 'Q', fg: (0, 79, 0), bg: (1, 1, 1) };
    let mut cells = vec![lit, dim, dim];
    show_unlit_text(&mut cells, &g, 3, 1);
    assert_eq!(cells[0].ch, 'Z');
    assert_eq!(cells[0].fg, (0, 200, 0));
    assert_eq!(cells[1].ch, 'b');
    assert_eq!(cells[1].fg, (190, 200, 190));
    assert_eq!(cells[1].bg, (0, 0, 0));
    assert_eq!(cells[2].ch, 'Q');
}

#[test]
fn bolt_glows_onto_neighbours() {
    let bg = (5, 5, 9);
    let space = Cell { ch: ' ', fg: (0, 0, 0), bg };
    let mut cells = vec![space; 6];
    cells[3] = Cell { ch: 'k', fg: (1, 1, 1), bg };
    bolt_glow(&mut cells, &None, 3, 2, 1, 1, 60);
    assert_eq!(cells[3].ch, 'k');
    assert_eq!(cells[3].fg, (1, 1, 1));
    assert_eq!(cells[5].ch, '·');
    assert_eq!(cells[5].fg, (30, 30, 60));
    assert_eq!(cells[5].bg, bg);
    assert_eq!(cells[2].ch, ' ');

    let g = TextGrid::from_text("x", 3, 1);
    let mut cells = vec![Cell { ch: 'x', fg: (250, 100, 200), bg }, space, space];
    bolt_glow(&mut cells, &Some(g), 3, 1, 1, 0, 120);
    assert_eq!(cells[0].fg, (255, 160, 255));
    assert_eq!(cells[2].ch, '·');

    let mut cells = vec![space; 2];
    bolt_glow(&mut cells, &None, 2, 1, 0, 0, 10);
    assert_eq!(cells[1].ch, '·');
    assert_eq!(cells[0].ch, ' ');
}

#[test]
fn bolts_on_low_screens_have_no_forks() {
    let mut rng = rand::thread_rng();
    for &(w, h) in &[(10usize, 1usize), (10, 2), (2, 1), (2, 2)] {
        for _ in 0..300 {
            let segs = bolt_segments(&mut rng, w, h);
            assert!(!segs.is_empty() && segs.len() <= h);
            for (k, &(x, y)) in segs.iter().enumerate() {
                assert_eq!(y, k);
                assert!(x < w);
            }
        }
    }
    assert!(bolt_segments(&mut rng, 10, 0).is_empty());
}

fn step(drift: i32, branch: Option<BoltBranch>, stop: bool) -> BoltStep {
    BoltStep { drift, branch, stop }
}

#[test]
fn bolt_path_follows_the_drawn_values() {
    let steps = vec![
        step(2, None, false),
        step(-2, Some(BoltBranch { drawn_len: 3, right: true, jitters: vec![0, 1, -1] }), false),
        step(0, None, false),
        step(2, None, true),
    ];
    let segs = bolt_path(10, 6, 5, &steps);
    assert_eq!(segs, vec![(5, 0), (7, 1), (6, 2), (8, 3), (8, 4), (5, 2), (5, 3)]);
}

#[test]
fn bolt_path_keeps_columns_on_the_grid() {
    let steps = vec![
        step(2, None, false),
        step(-2, Some(BoltBranch { drawn_len: 3, right: false, jitters: vec![-1, -1, -1] }), false),
        step(-2, None, false),
        step(2, None, false),
        step(2, None, true),
    ];
    let segs = bolt_path(3, 8, 2, &steps);
    assert_eq!(segs, vec![(2, 0), (2, 1), (0, 2), (0, 3), (0, 4), (0, 2), (0, 3), (2, 4)]);
}

#[test]
fn trail_is_the_picked_characters() {
    let pool = vec!['a', 'b', 'c'];
    let t = trail_from_picks(&pool, &vec![2, 0, 2, 1]);
    assert_eq!(t, vec!['c', 'a', 'c', 'b']);
    assert!(trail_from_picks(&pool, &vec![]).is_empty());
}

#[test]
fn trail_length_limit_follows_the_height() {
    assert_eq!(trail_len_limit(0), 5);
    assert_eq!(trail_len_limit(1), 5);
    assert_eq!(trail_len_limit(5), 5);
    assert_eq!(trail_len_limit(12), 12);
    assert_eq!(trail_len_limit(30), 30);
    assert_eq!(trail_len_limit(31), 30);
    assert_eq!(trail_len_limit(500), 30);
}

#[test]
fn flicker_at_replaces_one_character_when_drawn() {
    let pool = vec!['x', 'y'];
    let mut t = vec!['a', 'b', 'c'];
    flicker_at(&mut t, &pool, true, 1, 1);
    assert_eq!(t, vec!['a', 'y', 'c']);
    flicker_at(&mut t, &pool, false, 0, 0);
    assert_eq!(t, vec!['a', 'y', 'c']);
    flicker_at(&mut t, &pool, true, 2, 0);
    assert_eq!(t, vec!['a', 'y', 'x']);
}

fn same(a: &Cell, b: &Cell) -> bool {
    a.ch == b.ch && a.fg == b.fg && a.bg == b.bg
}

#[test]
fn raindrop_wets_text_and_draws_elsewhere() {
    let g = Some(TextGrid::from_text("ab", 3, 1));
    let base = Cell { ch: 'a', fg: (100, 2, 250), bg: (1, 2, 3) };
    let mut cells = vec![base, Cell { ch: 'b', ..base }, base];
    rain_trail_cell(&mut cells, &g, 3, 1, 0, 0, 0, 90);
    assert!(same(&cells[0], &Cell { ch: 'a', fg: (85, 0, 255), bg: (1, 2, 3) }));
    rain_trail_cell(&mut cells, &g, 3, 1, 1, 0, 3, 90);
    assert!(same(&cells[1], &Cell { ch: 'b', fg: (93, 0, 255), bg: (1, 2, 3) }));
    rain_trail_cell(&mut cells, &g, 3, 1, 2, 0, 1, 90);
    assert!(same(&cells[2], &Cell { ch: '│', fg: (30, 45, 90), bg: (0, 0, 0) }));
    rain_trail_cell(&mut cells, &None, 3, 1, 0, 0, 0, 90);
    assert!(same(&cells[0], &Cell { ch: '|', fg: (30, 45, 90), bg: (0, 0, 0) }));
    rain_trail_cell(&mut cells, &None, 3, 1, 1, 0, 7, 30);
    assert!(same(&cells[1], &Cell { ch: '¦', fg: (10, 15, 30), bg: (0, 0, 0) }));
}

#[test]
fn bolt_brightens_text_and_draws_elsewhere() {
    let g = Some(TextGrid::from_text(" x", 2, 2));
    let base = Cell { ch: 'x', fg: (10, 200, 50), bg: (4, 5, 6) };
    let mut cells = vec![base; 4];
    bolt_cell(&mut cells, &g, 2, 2, 1, 0, '█', 100);
    assert!(same(&cells[1], &Cell { ch: 'x', fg: (100, 200, 100), bg: (4, 5, 6) }));
    bolt_cell(&mut cells, &g, 2, 2, 0, 1, '▓', 200);
    assert!(same(&cells[2], &Cell { ch: '▓', fg: (200, 200, 200), bg: (25, 25, 50) }));
    assert!(same(&cells[0], &base));
    assert!(same(&cells[3], &base));
}

#[test]
fn brighter_green_wins_a_cell() {
    let g = Some(TextGrid::from_text("k", 2, 2));
    let base = Cell { ch: '.', fg: (9, 50, 9), bg: (7, 7, 7) };
    let mut cells = vec![base; 4];
    light_cell(&mut cells, &g, 2, 1, 0, 'z', (0, 40, 0));
    assert!(same(&cells[1], &base));
    light_cell(&mut cells, &g, 2, 1, 0, 'z', (0, 50, 0));
    assert!(same(&cells[1], &base));
    light_cell(&mut cells, &g, 2, 1, 0, 'z', (1, 60, 1));
    assert!(same(&cells[1], &Cell { ch: 'z', fg: (1, 60, 1), bg: (0, 0, 0) }));
    light_cell(&mut cells, &g, 2, 0, 0, 'z', (2, 200, 2));
    assert!(same(&cells[0], &Cell { ch: 'k', fg: (2, 200, 2), bg: (0, 0, 0) }));
    light_cell(&mut cells, &g, 2, 0, 5, 'z', (2, 255, 2));
    assert_eq!(cells.len(), 4);
    assert!(same(&cells[2], &base));
    assert!(same(&cells[3], &base));
}

#[test]
fn effects_are_found_by_name() {
    let names = effect_names();
    for (i, name) in names.iter().enumerate() {
        assert_eq!(effect_index(name), Some(i));
    }
    assert_eq!(effect_index("galaxy"), Some(3));
    assert_eq!(effect_index("retro"), Some(12));
    assert_eq!(effect_index("starfield"), None);
    assert_eq!(effect_index("Fire"), None);
    assert_eq!(effect_index("fir"), None);
    assert_eq!(effect_index(""), None);
}
