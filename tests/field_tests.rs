use rectangle_eraser::field::{Field, FieldError, Rectangle, EMPTY, FIELD_H, FIELD_W};

fn nested_field() -> Field {
    let cells_text: String = "                \n".to_string()
        + "                \n"
        + "                \n"
        + "   1112222      \n"
        + "   1  2  2      \n"
        + "   1  2  2      \n"
        + "   3334444      \n"
        + "   3555666      \n"
        + "   3577776      \n"
        + "   3577776      \n"
        + "   3577776      \n"
        + "                \n"
        + "                \n"
        + "                \n"
        + "                \n"
        + "                \n"
        + "                \n"
        + "                \n"
        + "";
    Field::from_text(&cells_text).unwrap()
}

fn rect(left: usize, top: usize, right: usize, bottom: usize) -> Rectangle {
    Rectangle {
        left,
        top,
        right,
        bottom,
    }
}

fn text_with_rows(rows: &[(usize, &str)]) -> String {
    let mut text = String::new();
    for y in 0..FIELD_H {
        let mut line = "";
        for (ry, row) in rows {
            if *ry == y {
                line = row;
            }
        }
        text.push_str(line);
        text.push('\n');
    }
    text
}

#[test]
fn test_check_erase_row() {
    let cells_text: String =
          "                \n".to_string()
        + "                \n"
        + "                \n"
        + "   1112222      \n"
        + "   1  2  2      \n"
        + "   1  2  2      \n"
        + "   3334444      \n"
        + "   3555666      \n"
        + "   3577776      \n"
        + "   3577776      \n"
        + "   3577776      \n"
        + "                \n"
        + "                \n"
        + "                \n"
        + "                \n"
        + "                \n"
        + "                \n"
        + "                \n"
        + "";

    let field = Field::from_text(&cells_text).unwrap();
    let mut rectangles = field.find_all_rectangles();
    rectangles.sort_by(|a, b| b.area().cmp(&a.area()));
    assert_eq!(
        rectangles,
        vec![
            Rectangle {
                left: 3,
                top: 3,
                right: 9,
                bottom: 10
            },
            Rectangle {
                left: 3,
                top: 6,
                right: 9,
                bottom: 10
            },
            Rectangle {
                left: 4,
                top: 7,
                right: 9,
                bottom: 10
            },
            Rectangle {
                left: 6,
                top: 3,
                right: 9,
                bottom: 6
            },
            Rectangle {
                left: 5,
                top: 8,
                right: 8,
                bottom: 10
            }
        ]
    );
}

#[test]
fn rectangle_dimensions() {
    let r = rect(3, 3, 9, 10);
    assert_eq!(r.width(), 7);
    assert_eq!(r.height(), 8);
    assert_eq!(r.area(), 56);
}

#[test]
fn new_field_is_empty() {
    let f = Field::new();
    for y in 0..FIELD_H {
        for x in 0..FIELD_W {
            assert_eq!(f.get(x, y), EMPTY);
        }
    }
}

#[test]
fn get_outside_grid_is_empty() {
    let f = Field::from_text(&text_with_rows(&[(0, "abcdefghijklmnop"), (17, "qrstuvwxyzABCDEF")])).unwrap();
    assert_eq!(f.get(0, 0), 'a');
    assert_eq!(f.get(15, 0), 'p');
    assert_eq!(f.get(15, 17), 'F');
    assert_eq!(f.get(16, 0), EMPTY);
    assert_eq!(f.get(0, 18), EMPTY);
    assert_eq!(f.get(usize::MAX, usize::MAX), EMPTY);
}

#[test]
fn from_text_pads_and_cuts_rows() {
    let f = Field::from_text(&text_with_rows(&[(2, "ab"), (3, "0123456789abcdefXYZ")])).unwrap();
    assert_eq!(f.get(0, 2), 'a');
    assert_eq!(f.get(1, 2), 'b');
    assert_eq!(f.get(2, 2), EMPTY);
    assert_eq!(f.get(15, 3), 'f');
    assert_eq!(f.get(0, 4), EMPTY);
}

#[test]
fn from_text_strips_carriage_returns() {
    let text = text_with_rows(&[(1, "xy")]).replace("\n", "\r\n");
    let f = Field::from_text(&text).unwrap();
    assert_eq!(f.get(0, 1), 'x');
    assert_eq!(f.get(1, 1), 'y');
    assert_eq!(f.get(2, 1), EMPTY);
}

#[test]
fn from_text_rejects_wrong_row_count() {
    let short: String = "   11\n".repeat(FIELD_H - 1);
    assert_eq!(Field::from_text(&short).err(), Some(FieldError::MalformedStageData));
    let long: String = "   11\n".repeat(FIELD_H + 1);
    assert_eq!(Field::from_text(&long).err(), Some(FieldError::MalformedStageData));
    assert_eq!(Field::from_text("").err(), Some(FieldError::MalformedStageData));
    let exact: String = "   11\n".repeat(FIELD_H);
    assert!(Field::from_text(&exact).is_ok());
}

#[test]
fn is_rectangle_rejects_thin_boxes() {
    let f = Field::from_text(&text_with_rows(&[(0, "11111"), (1, "11111")])).unwrap();
    assert!(!f.is_rectangle(0, 0, 0, 1));
    assert!(!f.is_rectangle(0, 0, 4, 0));
    assert!(!f.is_rectangle(2, 0, 2, 0));
    assert!(f.is_rectangle(0, 0, 4, 1));
}

#[test]
fn is_rectangle_rejects_leaking_border() {
    let f = Field::from_text(&text_with_rows(&[(1, "222"), (2, "2 2"), (3, "222"), (4, "2")])).unwrap();
    assert!(!f.is_rectangle(0, 1, 2, 3));
    let g = Field::from_text(&text_with_rows(&[(1, "222"), (2, "2 2"), (3, "222"), (4, "3")])).unwrap();
    assert!(g.is_rectangle(0, 1, 2, 3));
    assert!(!g.is_rectangle(0, 1, 2, 4));
}

#[test]
fn is_rectangle_at_grid_edge() {
    let f = Field::from_text(&text_with_rows(&[(16, "              55"), (17, "              55")])).unwrap();
    assert!(f.is_rectangle(14, 16, 15, 17));
    assert!(!f.is_rectangle(14, 16, 16, 17));
}

#[test]
fn corners_per_label() {
    let f = nested_field();
    let (tl, br) = f.find_corners();
    assert_eq!(tl.len(), 7);
    assert_eq!(br.len(), 7);
    for k in 0..tl.len() {
        assert_eq!(tl[k].0, br[k].0);
    }
    let find = |table: &Vec<(char, (usize, usize))>, c: char| -> (usize, usize) {
        table.iter().find(|e| e.0 == c).unwrap().1
    };
    assert_eq!(find(&tl, '1'), (3, 3));
    assert_eq!(find(&br, '1'), (5, 5));
    assert_eq!(find(&tl, '2'), (6, 3));
    assert_eq!(find(&br, '2'), (9, 5));
    assert_eq!(find(&tl, '6'), (7, 7));
    assert_eq!(find(&br, '6'), (9, 10));
    assert_eq!(find(&br, '3'), (5, 10));
}

#[test]
fn empty_field_has_no_rectangles() {
    let f = Field::new();
    assert!(f.find_all_rectangles().is_empty());
    assert_eq!(f.find_rectangle_to_be_erased(3, 3), None);
}

#[test]
fn erased_rectangle_is_largest_containing_point() {
    let f = nested_field();
    assert_eq!(f.find_rectangle_to_be_erased(6, 9), Some(rect(3, 3, 9, 10)));
    assert_eq!(f.find_rectangle_to_be_erased(3, 3), Some(rect(3, 3, 9, 10)));
    assert_eq!(f.find_rectangle_to_be_erased(10, 3), None);
    assert_eq!(f.find_rectangle_to_be_erased(0, 0), None);
}

#[test]
fn small_rectangle_found_alone() {
    let f = Field::from_text(&text_with_rows(&[(5, "  aaa"), (6, "  a a"), (7, "  aaa")])).unwrap();
    assert_eq!(f.find_all_rectangles(), vec![rect(2, 5, 4, 7)]);
    assert_eq!(f.find_rectangle_to_be_erased(3, 6), Some(rect(2, 5, 4, 7)));
    assert_eq!(f.find_rectangle_to_be_erased(5, 6), None);
}

#[test]
fn found_rectangles_have_closed_borders() {
    let f = nested_field();
    let get = |x: i64, y: i64| -> char {
        if x < 0 || y < 0 {
            EMPTY
        } else {
            f.get(x as usize, y as usize)
        }
    };
    let rects = f.find_all_rectangles();
    assert_eq!(rects.len(), 5);
    for r in &rects {
        let (l, t, rt, b) = (r.left as i64, r.top as i64, r.right as i64, r.bottom as i64);
        for x in l..=rt {
            assert_ne!(get(x, t), EMPTY);
            assert_ne!(get(x, t - 1), get(x, t));
            assert_ne!(get(x, b), EMPTY);
            assert_ne!(get(x, b + 1), get(x, b));
        }
        for y in t..=b {
            assert_ne!(get(l, y), EMPTY);
            assert_ne!(get(l - 1, y), get(l, y));
            assert_ne!(get(rt, y), EMPTY);
            assert_ne!(get(rt + 1, y), get(rt, y));
        }
    }
}

#[test]
fn found_rectangles_are_distinct() {
    let f = Field::from_text(&text_with_rows(&[(0, "abbb"), (1, "a  b"), (2, "aaab")])).unwrap();
    let rects = f.find_all_rectangles();
    for i in 0..rects.len() {
        for j in 0..i {
            assert_ne!(rects[i], rects[j]);
        }
    }
}
