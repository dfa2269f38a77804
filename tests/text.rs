use ladle::text::{Input, Pos};

#[test]
fn input_row_based_tests() {
    let input = Input::new("1234\n5\n6\n78901\n234".into());
    assert_eq!(vec![4, 6, 8, 14], *input.newline_table());

    assert_eq!(0, input.row_start(0));
    assert_eq!(5, input.row_start(1));
    assert_eq!(7, input.row_start(2));
    assert_eq!(9, input.row_start(3));
    assert_eq!(15, input.row_start(4));

    assert_eq!(4, input.row_end(0));
    assert_eq!(6, input.row_end(1));
    assert_eq!(8, input.row_end(2));
    assert_eq!(14, input.row_end(3));
    assert_eq!(18, input.row_end(4));

    assert_eq!(String::from("1234"), input.get_row_slice(0));
    assert_eq!(String::from("5"), input.get_row_slice(1));
    assert_eq!(String::from("6"), input.get_row_slice(2));
    assert_eq!(String::from("78901"), input.get_row_slice(3));
    assert_eq!(String::from("234"), input.get_row_slice(4));
}

#[test]
fn input_newline_indices() {
    let num_newlines = 100;
    let input = Input::new("\n".repeat(num_newlines));
    let newlines: Vec<usize> = (0..num_newlines).collect();
    assert_eq!(newlines, *input.newline_table());

    for i in 0..num_newlines {
        assert_eq!(i, input.get_row_num(i), "index is {}", i);
        let expected_pos = Pos { line: i, col: 0 };
        assert_eq!(expected_pos, input.get_pos(i), "index is {}", i);
    }
}

#[test]
fn input_index_based_tests() {
    let input = Input::new("a;slajt\nleham\nc.a,mebuais;cmn\nbv,b\ne,mnbt\n".into());
    let newlines = vec![7, 13, 29, 34, 41];
    assert_eq!(newlines, *input.newline_table());

    for i in 0..42 {
        let expected_row = match i {
            0..=7 => 0,
            8..=13 => 1,
            14..=29 => 2,
            30..=34 => 3,
            35..=41 => 4,
            _ => 10000,
        };
        assert_eq!(expected_row, input.get_row_num(i), "index is {}", i);

        let expected_col = match expected_row {
            0 => i,
            _ => i - newlines[expected_row - 1] - 1,
        };
        let expected_pos = Pos { line: expected_row, col: expected_col };

        assert_eq!(expected_pos, input.get_pos(i), "index is {}", i);
    }
}

#[test]
fn mod_row_based_tests() {
    let input = Input::new("1234\n5\n6\n78901\n234".into());
    assert_eq!(vec![4, 6, 8, 14], *input.newline_table());

    assert_eq!(0, input.get_line_start(0));
    assert_eq!(5, input.get_line_start(1));
    assert_eq!(7, input.get_line_start(2));
    assert_eq!(9, input.get_line_start(3));
    assert_eq!(15, input.get_line_start(4));

    assert_eq!(4, input.get_line_end(0));
    assert_eq!(6, input.get_line_end(1));
    assert_eq!(8, input.get_line_end(2));
    assert_eq!(14, input.get_line_end(3));
    assert_eq!(18, input.get_line_end(4));

    assert_eq!(String::from("1234"), input.get_line_slice(0));
    assert_eq!(String::from("5"), input.get_line_slice(1));
    assert_eq!(String::from("6"), input.get_line_slice(2));
    assert_eq!(String::from("78901"), input.get_line_slice(3));
    assert_eq!(String::from("234"), input.get_line_slice(4));
}

#[test]
fn mod_newline_indices() {
    let num_newlines = 100;
    let input = Input::new("\n".repeat(num_newlines));
    let newlines: Vec<usize> = (0..num_newlines).collect();
    assert_eq!(newlines, *input.newline_table());

    for i in 0..num_newlines {
        assert_eq!(i, input.get_line_num(i), "index is {}", i);
        let expected_pos = Pos { line: i, col: 0 };
        assert_eq!(expected_pos, input.get_pos(i), "index is {}", i);
    }
}

#[test]
fn mod_index_based_tests() {
    let input = Input::new("a;slajt\nleham\nc.a,mebuais;cmn\nbv,b\ne,mnbt\n".into());
    let newlines = vec![7, 13, 29, 34, 41];
    assert_eq!(newlines, *input.newline_table());

    for i in 0..42 {
        let expected_line = match i {
            0..=7 => 0,
            8..=13 => 1,
            14..=29 => 2,
            30..=34 => 3,
            35..=41 => 4,
            _ => 10000,
        };
        assert_eq!(expected_line, input.get_line_num(i), "index is {}", i);

        let expected_col = match expected_line {
            0 => i,
            _ => i - newlines[expected_line - 1] - 1,
        };
        let expected_pos = Pos { line: expected_line, col: expected_col };

        assert_eq!(expected_pos, input.get_pos(i), "index is {}", i);
    }
}

#[test]
fn line_slice_of_multibyte_text() {
    let input = Input::new("héllo\nwörld".into());
    assert_eq!(vec![6], *input.newline_table());
    assert_eq!("héllo", input.get_line_slice(0));
    assert_eq!("wörld", input.get_line_slice(1));
    assert_eq!(Pos { line: 1, col: 2 }, input.get_pos(9));
}

#[test]
fn input_keeps_text_and_path() {
    let input = Input::new_with_path("ab\nc".into(), "src/x.txt".into());
    assert_eq!("ab\nc", input.as_str());
    assert_eq!(Some("src/x.txt"), input.path());
    assert_eq!(None, Input::new("a".into()).path());
}

#[test]
fn spans_over_an_input() {
    let input = Input::new("abc def ghi".into());
    let seq = input.get_span_seq(vec![3, 7, 11], vec!['a', 'd', 'g']);
    let second = seq.get_span(1);
    assert_eq!((second.start(), second.stop(), second.contents), (3, 7, 'd'));
    let first = seq.get_span(0);
    assert_eq!((first.start(), first.stop()), (0, 3));
    let whole = seq.get_range_as_span(0, 2, "all");
    assert_eq!((whole.start(), whole.stop(), whole.contents), (0, 11, "all"));
    let upper = seq.map(|c: &char| c.to_ascii_uppercase());
    assert_eq!(upper.get_span(2).contents, 'G');
    let shifted = input.get_span(4, 7, 1u32).map_contents(|n: u32| n + 1);
    assert_eq!((shifted.start(), shifted.stop(), shifted.contents), (4, 7, 2));
}
