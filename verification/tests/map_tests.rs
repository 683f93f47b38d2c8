use search::{Field, Grid, MapPositions, Positionable};

fn collect_positions(mut cursor: MapPositions) -> Vec<(usize, usize)> {
    let mut out = Vec::new();
    while let Some(p) = cursor.next() {
        out.push(p);
    }
    out
}

#[test]
fn map_test_map_positions() {
    let m1 = Grid { width: 1, height: 1, fields: vec![] };
    assert_eq!(vec![(0, 0)], collect_positions(m1.positions()));
    let m2 = Grid { width: 3, height: 2, fields: vec![] };
    assert_eq!(
        vec![(0, 0), (1, 0), (2, 0), (0, 1), (1, 1), (2, 1)],
        collect_positions(m2.positions())
    );
    let m3 = Grid { width: 2, height: 3, fields: vec![] };
    assert_eq!(
        vec![(0, 0), (1, 0), (0, 1), (1, 1), (0, 2), (1, 2)],
        collect_positions(m3.positions())
    );
}

#[test]
fn mod_test_map_positions() {
    let m1 = Grid { width: 1, height: 1, fields: vec![] };
    assert_eq!(vec![(0, 0)], collect_positions(m1.positions()));
    let m2 = Grid { width: 3, height: 2, fields: vec![] };
    assert_eq!(
        vec![(0, 0), (1, 0), (2, 0), (0, 1), (1, 1), (2, 1)],
        collect_positions(m2.positions())
    );
    let m3 = Grid { width: 2, height: 3, fields: vec![] };
    assert_eq!(
        vec![(0, 0), (1, 0), (0, 1), (1, 1), (0, 2), (1, 2)],
        collect_positions(m3.positions())
    );
}

#[test]
fn start_and_goals_list_the_tagged_cells() {
    let g = Grid {
        width: 2,
        height: 2,
        fields: vec![Field::Start, Field::Passable, Field::Goal, Field::Goal],
    };
    assert_eq!(vec![(0, 0)], g.start());
    assert_eq!(vec![(0, 1), (1, 1)], g.goals());
}

#[test]
fn field_passability_follows_the_tag() {
    assert!(Field::Start.is_passable());
    assert!(Field::Goal.is_passable());
    assert!(Field::Passable.is_passable());
    assert!(Field::Path.is_passable());
    assert!(!Field::Impassable.is_passable());
}

#[test]
fn positionable_places_a_pair_on_the_plane() {
    let p: (usize, usize) = (3, 4);
    assert_eq!(p.pos2d(), (3, 4));
    assert_eq!(p.pos3d(), (3, 4, 0));
}

#[test]
fn index_is_row_major() {
    assert_eq!(search::index((2, 1), 3), 5);
    assert_eq!(search::index((0, 0), 3), 0);
}
