use sigmar::marble::{marble_values, Marble};
use sigmar::rows::{board_rows, RowDesc};

#[test]
fn test_board_rows() {
    let rows = board_rows();
    assert_eq!(RowDesc { x_min: 5, x_max: 10 }, rows[0]);
    assert_eq!(RowDesc { x_min: 0, x_max: 10 }, rows[5]);
    assert_eq!(RowDesc { x_min: 0, x_max: 5 }, *rows.last().unwrap());
}

#[test]
fn board_rows_has_eleven_rows_and_ninety_one_cells() {
    let rows = board_rows();
    assert_eq!(rows.len(), 11);
    let mut cells = 0;
    for r in rows.iter() {
        assert!(r.x_min <= r.x_max);
        cells += r.x_max - r.x_min + 1;
    }
    assert_eq!(cells, 91);
}

#[test]
fn board_rows_follow_the_formula() {
    let rows = board_rows();
    for (r, row) in rows.iter().enumerate() {
        let r = r as i32;
        assert_eq!(row.x_min, std::cmp::max(5 - r, 0));
        assert_eq!(row.x_max, std::cmp::min(15 - r, 10));
    }
    assert_eq!(rows[3], RowDesc { x_min: 2, x_max: 10 });
    assert_eq!(rows[8], RowDesc { x_min: 0, x_max: 7 });
}

#[test]
fn marble_index_follows_declaration_order() {
    assert_eq!(Marble::Lead.index(), 0);
    assert_eq!(Marble::Gold.index(), 5);
    assert_eq!(Marble::Mercury.index(), 6);
    assert_eq!(Marble::Earth.index(), 10);
    assert_eq!(Marble::Salt.index(), 13);
    assert_eq!(Marble::Empty.index(), 14);
}

#[test]
fn metals_are_ranked_by_purity() {
    let metals = [
        Marble::Lead,
        Marble::Tin,
        Marble::Iron,
        Marble::Copper,
        Marble::Silver,
        Marble::Gold,
    ];
    for w in metals.windows(2) {
        assert!(w[0].urgency() > w[1].urgency());
        assert!(w[0] < w[1]);
    }
    assert_eq!(Marble::Lead.urgency(), 6);
    assert_eq!(Marble::Gold.urgency(), 1);
    assert_eq!(Marble::Mercury.urgency(), 0);
    assert_eq!(Marble::Empty.urgency(), 0);
    for m in metals.iter() {
        assert!(m.is_metal());
        assert!(!m.is_elemental());
    }
    assert!(!Marble::Salt.is_metal());
    assert!(!Marble::Empty.is_metal());
}

#[test]
fn elementals_are_the_four_elements() {
    for m in [Marble::Air, Marble::Fire, Marble::Water, Marble::Earth].iter() {
        assert!(m.is_elemental());
    }
    for m in [Marble::Salt, Marble::Vitae, Marble::Mors, Marble::Mercury, Marble::Empty].iter() {
        assert!(!m.is_elemental());
    }
}

#[test]
fn marble_names_match_debug_names() {
    for m in marble_values().iter() {
        assert_eq!(m.name(), format!("{:?}", m));
    }
    assert_eq!(Marble::Empty.name(), "Empty");
    assert_eq!(Marble::Mercury.name(), "Mercury");
}

#[test]
fn marble_values_lists_each_kind_once() {
    let values = marble_values();
    assert_eq!(values.len(), 14);
    assert_eq!(values[0], Marble::Salt);
    assert_eq!(values[5], Marble::Lead);
    assert_eq!(values[13], Marble::Mors);
    for (i, a) in values.iter().enumerate() {
        assert_ne!(*a, Marble::Empty);
        for b in values.iter().skip(i + 1) {
            assert_ne!(a, b);
        }
    }
}
