use game_of_life::manager::{
    load_from_string, load_from_stringmap, CellState, Game, Grid, ParseError,
};

#[test]
fn test_map_get_cell() {
    let width: usize = 3;
    let height: usize = 4;

    let mut map = Grid { states: vec![CellState::Dead; 12], width: width, height: height };
    map.states[(3 * width) + 1] = CellState::Alive;

    let cell = map.get_cell(1, 3);

    assert_eq!(CellState::Alive, *cell);
}

#[test]
fn test_map_get_cell_mut() {
    let width: usize = 3;
    let height: usize = 4;

    let mut map = Grid { states: vec![CellState::Dead; 12], width: width, height: height };

    let cell = map.get_cell_mut(1, 3);
    *cell = CellState::Alive;

    assert_eq!(CellState::Alive, map.states[(3 * width) + 1]);
}

#[test]
fn test_load_content() {
    let game = load_from_string(&String::from("3x3\nx..\n.x.\n..x"))
        .expect("Couldn't parse string");

    assert_eq!(3, game.map.width);
    assert_eq!(3, game.map.height);

    let cells = &game.map.states;

    assert_eq!(CellState::Alive, cells[(0 * game.map.width) + 0]);
    assert_eq!(CellState::Dead, cells[(0 * game.map.width) + 1]);
    assert_eq!(CellState::Dead, cells[(0 * game.map.width) + 2]);

    assert_eq!(CellState::Dead, cells[(1 * game.map.width) + 0]);
    assert_eq!(CellState::Alive, cells[(1 * game.map.width) + 1]);
    assert_eq!(CellState::Dead, cells[(1 * game.map.width) + 2]);

    assert_eq!(CellState::Dead, cells[(2 * game.map.width) + 0]);
    assert_eq!(CellState::Dead, cells[(2 * game.map.width) + 1]);
    assert_eq!(CellState::Alive, cells[(2 * game.map.width) + 2]);
}

#[test]
fn test_load_stringmap() {
    let game = load_from_stringmap(&String::from("x..\n.x.\n..x"), 3, 3)
        .expect("Couldn't parse string");

    assert_eq!(3, game.map.width);
    assert_eq!(3, game.map.height);

    let cells = &game.map.states;

    assert_eq!(CellState::Alive, cells[(0 * game.map.width) + 0]);
    assert_eq!(CellState::Dead, cells[(0 * game.map.width) + 1]);
    assert_eq!(CellState::Dead, cells[(0 * game.map.width) + 2]);

    assert_eq!(CellState::Dead, cells[(1 * game.map.width) + 0]);
    assert_eq!(CellState::Alive, cells[(1 * game.map.width) + 1]);
    assert_eq!(CellState::Dead, cells[(1 * game.map.width) + 2]);

    assert_eq!(CellState::Dead, cells[(2 * game.map.width) + 0]);
    assert_eq!(CellState::Dead, cells[(2 * game.map.width) + 1]);
    assert_eq!(CellState::Alive, cells[(2 * game.map.width) + 2]);
}

fn test_input(width: usize, height: usize, map: &String, expected: &String, steps: usize) {
    let mut game = load_from_stringmap(&map, width, height).expect("Couldn't parse string");
    game.run(steps);

    let result = game.get_states_as_string();
    println!("map:\n{}\n", map);
    println!("expected:\n{}\n", expected);
    println!("result\n{}\n", result);
    assert_eq!(*expected, result);
}

#[test]
fn test_cross() {
    let map = String::from(
        "\
.....
..x..
..x..
..x..
.....",
    );
    let expected = String::from(
        "\
.....
.....
.xxx.
.....
.....",
    );
    test_input(5, 5, &map, &expected, 5);
    test_input(5, 5, &map, &map, 6);
}

#[test]
fn test_new_game_is_all_dead() {
    let game = Game::new(4, 3);
    assert_eq!(4, game.map.get_width());
    assert_eq!(3, game.map.get_height());
    assert_eq!(12, game.map.states.len());
    for y in 0..3 {
        for x in 0..4 {
            assert_eq!(CellState::Dead, *game.map.get_cell(x, y));
        }
    }
    assert_eq!(String::from("....\n....\n...."), game.get_states_as_string());
}

#[test]
fn test_round_trip() {
    let text = String::from("x.x..\n.xx.x\n.....\nxxxxx\n....x");
    let game = load_from_stringmap(&text, 5, 5).expect("Couldn't parse string");
    let rendered = game.get_states_as_string();
    assert_eq!(text, rendered);

    let reparsed = load_from_stringmap(&rendered, 5, 5).expect("Couldn't parse string");
    for y in 0..5 {
        for x in 0..5 {
            assert_eq!(*game.map.get_cell(x, y), *reparsed.map.get_cell(x, y));
        }
    }
}

#[test]
fn test_border_is_frozen() {
    let map = String::from("xxx\nxxx\nxxx");
    let mut game = load_from_stringmap(&map, 3, 3).expect("Couldn't parse string");
    game.step();
    assert_eq!(String::from("xxx\nx.x\nxxx"), game.get_states_as_string());
}

#[test]
fn test_run_zero_steps_is_identity() {
    let map = String::from(".x.\nxx.\n..x");
    let mut game = load_from_stringmap(&map, 3, 3).expect("Couldn't parse string");
    game.run(0);
    assert_eq!(map, game.get_states_as_string());
}

#[test]
fn test_wrong_row_length_is_rejected() {
    let r = load_from_stringmap(&String::from("x..\n.x\n..x"), 3, 3);
    assert_eq!(Err(ParseError::RowLength { y: 1, found: 2 }), r.map(|_| ()));

    let r = load_from_string(&String::from("3x3\nx...\n.x.\n..x"));
    assert_eq!(Err(ParseError::RowLength { y: 0, found: 4 }), r.map(|_| ()));
}

#[test]
fn test_bad_character_is_rejected() {
    let r = load_from_stringmap(&String::from("x..\n.a.\n..x"), 3, 3);
    assert_eq!(Err(ParseError::BadChar { c: 'a', x: 1, y: 1 }), r.map(|_| ()));
}

#[test]
fn test_wrong_line_count_is_rejected() {
    let too_few = load_from_stringmap(&String::from("x..\n.x."), 3, 3);
    assert_eq!(Err(ParseError::WrongLineCount), too_few.map(|_| ()));

    let too_many = load_from_stringmap(&String::from("x..\n.x.\n..x\nxxx"), 3, 3);
    assert_eq!(Err(ParseError::WrongLineCount), too_many.map(|_| ()));

    let empty = load_from_stringmap(&String::from(""), 3, 3);
    assert_eq!(Err(ParseError::WrongLineCount), empty.map(|_| ()));
}

#[test]
fn test_trailing_newline_is_accepted() {
    let game = load_from_stringmap(&String::from("x..\n.x.\n..x\n"), 3, 3)
        .expect("Couldn't parse string");
    assert_eq!(String::from("x..\n.x.\n..x"), game.get_states_as_string());
}

#[test]
fn test_bad_headers_are_rejected() {
    assert_eq!(
        Err(ParseError::MissingHeader),
        load_from_string(&String::from("")).map(|_| ())
    );

    let bad = [
        "ax3\nx..\n.x.\n..x",
        "3x\nx..\n.x.\n..x",
        "x3\nx..\n.x.\n..x",
        "33\nx..\n.x.\n..x",
        "0x3\nx..\n.x.\n..x",
        "3x0\nx..\n.x.\n..x",
        "3x3x3\nx..\n.x.\n..x",
        "-3x3\nx..\n.x.\n..x",
        "3x 3\nx..\n.x.\n..x",
    ];
    for text in bad.iter() {
        assert_eq!(
            Err(ParseError::BadHeader),
            load_from_string(&String::from(*text)).map(|_| ())
        );
    }
}

#[test]
fn test_header_dimensions_are_used() {
    let game = load_from_string(&String::from("4x2\nx..x\n.xx."))
        .expect("Couldn't parse string");
    assert_eq!(4, game.map.get_width());
    assert_eq!(2, game.map.get_height());
    assert_eq!(CellState::Alive, *game.map.get_cell(0, 0));
    assert_eq!(CellState::Alive, *game.map.get_cell(3, 0));
    assert_eq!(CellState::Alive, *game.map.get_cell(1, 1));
    assert_eq!(CellState::Alive, *game.map.get_cell(2, 1));
    assert_eq!(CellState::Dead, *game.map.get_cell(1, 0));
    assert_eq!(CellState::Dead, *game.map.get_cell(0, 1));
}

#[test]
fn test_smallest_grid_has_no_interior() {
    let mut game = load_from_string(&String::from("1x1\nx")).expect("Couldn't parse string");
    assert_eq!(1, game.map.get_width());
    assert_eq!(1, game.map.get_height());
    assert_eq!(CellState::Alive, *game.map.get_cell(0, 0));
    game.run(3);
    assert_eq!(String::from("x"), game.get_states_as_string());
}
