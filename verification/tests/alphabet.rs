use maze_generator::alphabet::{lookup_char, num_to_char};

#[test]
fn num_to_char_gives_letters_then_marks() {
    assert_eq!(num_to_char(0), 'a');
    assert_eq!(num_to_char(1), 'b');
    assert_eq!(num_to_char(25), 'z');
    assert_eq!(num_to_char(26), ' ');
    assert_eq!(num_to_char(27), '.');
    assert_eq!(num_to_char(28), '!');
    assert_eq!(num_to_char(29), '?');
    assert_eq!(num_to_char(30), '-');
    assert_eq!(num_to_char(31), '*');
}

#[test]
fn lookup_char_finds_the_number() {
    assert_eq!(lookup_char('a'), Some(0));
    assert_eq!(lookup_char('m'), Some(12));
    assert_eq!(lookup_char('z'), Some(25));
    assert_eq!(lookup_char(' '), Some(26));
    assert_eq!(lookup_char('*'), Some(31));
}

#[test]
fn lookup_char_refuses_other_characters() {
    assert_eq!(lookup_char('A'), None);
    assert_eq!(lookup_char('0'), None);
    assert_eq!(lookup_char(','), None);
    assert_eq!(lookup_char('\n'), None);
}

#[test]
fn lookup_char_undoes_num_to_char() {
    for number in 0..32u32 {
        assert_eq!(lookup_char(num_to_char(number)), Some(number));
    }
}
