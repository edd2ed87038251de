use sigmar::edges::{hysteresis, CannyLabel};

fn labels(rows: &[&str]) -> (Vec<CannyLabel>, usize, usize) {
    let h = rows.len();
    let w = if h == 0 { 0 } else { rows[0].len() };
    let mut v = Vec::new();
    for row in rows {
        assert_eq!(row.len(), w);
        for c in row.chars() {
            v.push(match c {
                'S' => CannyLabel::Strong,
                'w' => CannyLabel::Weak,
                _ => CannyLabel::Suppressed,
            });
        }
    }
    (v, w, h)
}

fn edges(rows: &[&str]) -> Vec<String> {
    let (v, w, h) = labels(rows);
    let e = hysteresis(v, w, h);
    assert_eq!(e.len(), w * h);
    (0..h)
        .map(|y| (0..w).map(|x| if e[y * w + x] { '#' } else { '.' }).collect())
        .collect()
}

#[test]
fn strong_pixels_are_edges_and_suppressed_ones_are_not() {
    assert_eq!(edges(&["S.S", "...", ".S."]), vec!["#.#", "...", ".#."]);
}

#[test]
fn weak_pixels_alone_are_no_edges() {
    assert_eq!(edges(&["www", "w.w", "www"]), vec!["...", "...", "..."]);
}

#[test]
fn weak_pixels_that_touch_a_strong_one_are_edges() {
    assert_eq!(edges(&["www", "wSw", "www"]), vec!["###", "###", "###"]);
    assert_eq!(edges(&["w....", "..S..", "....w"]), vec![".....", "..#..", "....."]);
}

#[test]
fn weak_pixels_are_linked_along_a_chain() {
    assert_eq!(
        edges(&["Sw...", "..w..", "...w.", "w...w", ".w..."]),
        vec!["##...", "..#..", "...#.", "....#", "....."]
    );
}

#[test]
fn a_suppressed_pixel_breaks_the_chain() {
    assert_eq!(edges(&["Sw.ww"]), vec!["##..."]);
    assert_eq!(edges(&["Swwww"]), vec!["#####"]);
}

#[test]
fn the_end_of_a_row_does_not_touch_the_start_of_the_next() {
    assert_eq!(edges(&["..S", "w..", "..."]), vec!["..#", "...", "..."]);
    assert_eq!(edges(&["S..", "..w", "..."]), vec!["#..", "...", "..."]);
    assert_eq!(edges(&["..S", ".w.", "w.."]), vec!["..#", ".#.", "#.."]);
}

#[test]
fn an_empty_image_has_no_edges() {
    assert_eq!(hysteresis(Vec::new(), 0, 0), Vec::<bool>::new());
    assert_eq!(hysteresis(Vec::new(), 0, 7), Vec::<bool>::new());
    assert_eq!(hysteresis(Vec::new(), 7, 0), Vec::<bool>::new());
}

#[test]
fn a_spiral_of_weak_pixels_is_followed_to_its_end() {
    assert_eq!(
        edges(&["Swwwww", ".....w", "wwww.w", "w..w.w", "w....w", "wwwwww"]),
        vec!["######", ".....#", "####.#", "#..#.#", "#....#", "######"]
    );
}
