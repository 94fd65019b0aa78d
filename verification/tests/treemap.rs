use recu::treemap::{category_colors, blank_grid, fill_rect, lighten, paint_tile, tile_color, write_str, Pixel, PALETTE};

fn chars(grid: &Vec<Vec<Pixel>>) -> Vec<String> {
    grid.iter().map(|r| r.iter().map(|p| p.ch).collect()).collect()
}

#[test]
fn lighten_blends_halfway_to_white() {
    assert_eq!(lighten((0, 100, 255)), (127, 177, 255));
    assert_eq!(tile_color(12), PALETTE[2]);
}

#[test]
fn fill_rect_draws_a_box() {
    let mut g = blank_grid(6, 4);
    fill_rect(&mut g, 1, 0, 4, 3, (1, 2, 3));
    assert_eq!(chars(&g), vec![" ┌──┐ ", " │  │ ", " └──┘ ", "      "]);
    assert_eq!(g[1][2].bg, (1, 2, 3));
    assert_eq!(g[1][2].fg, (255, 255, 255));
    assert_eq!(g[3][0].bg, (15, 15, 15));
}

#[test]
fn fill_rect_clips_at_the_edge() {
    let mut g = blank_grid(4, 2);
    fill_rect(&mut g, 2, 1, 5, 5, (9, 9, 9));
    assert_eq!(chars(&g), vec!["    ", "  ┌┐"]);
}

#[test]
fn write_str_clips_at_row_end() {
    let mut g = blank_grid(5, 2);
    write_str(&mut g, 1, 3, "abc", (1, 1, 1), (2, 2, 2));
    write_str(&mut g, 7, 0, "zzz", (1, 1, 1), (2, 2, 2));
    assert_eq!(chars(&g), vec!["     ", "   ab"]);
}

#[test]
fn tile_with_labels() {
    let mut g = blank_grid(9, 5);
    paint_tile(&mut g, 0, 0, 9, 5, (10, 20, 30), "Netflix Premium", "$16/mo", "$192/yr");
    assert_eq!(
        chars(&g),
        vec!["┌───────┐", "│Netfli…│", "│$16/mo │", "│$192/yr│", "└───────┘"]
    );
    assert_eq!(g[2][1].fg, lighten((10, 20, 30)));
    let mut small = blank_grid(3, 3);
    paint_tile(&mut small, 0, 0, 2, 2, (1, 1, 1), "x", "y", "z");
    assert_eq!(chars(&small), vec!["   ", "   ", "   "]);
}

#[test]
fn categories_keep_their_color() {
    let cats = vec![
        Some("streaming".to_string()),
        None,
        Some("streaming".to_string()),
        Some("housing".to_string()),
        None,
    ];
    let colors = category_colors(&cats);
    assert_eq!(colors, vec![PALETTE[0], PALETTE[1], PALETTE[0], PALETTE[2], PALETTE[1]]);
}
