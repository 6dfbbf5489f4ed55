use castavox_core::numbers::{read_first, read_numbers};

fn read(text: &str) -> Vec<i64> {
    read_numbers(&text.split(' ').map(str::to_string).collect::<Vec<_>>())
}

#[test]
fn tens_compose_and_separate_numbers_do_not() {
    assert_eq!(read("twenty eight"), [28]);
    assert_eq!(read("three sixteen"), [3, 16]);
}

#[test]
fn the_first_number_knows_where_it_ends() {
    let words = |t: &str| t.split(' ').map(str::to_string).collect::<Vec<_>>();
    assert_eq!(read_first(&words("nine eight")), Some((9, 1)));
    assert_eq!(read_first(&words("twenty eight")), Some((28, 2)));
    assert_eq!(read_first(&words("one hundred nineteen")), Some((119, 3)));
    assert_eq!(read_first(&words("nine")), Some((9, 1)));
    assert_eq!(read_first(&words("chapter")), None);
    assert_eq!(read_first(&words("eight is where we finished")), Some((8, 1)));
}

#[test]
fn digits_and_words_read_the_same() {
    assert_eq!(read("3 16"), [3, 16]);
    assert_eq!(read("one hundred nineteen"), [119]);
}

#[test]
fn reading_stops_at_the_first_other_word() {
    assert_eq!(read("three sixteen please twenty"), [3, 16]);
    assert_eq!(read("one hundred and verses five"), [100]);
    assert_eq!(read("verse three"), Vec::<i64>::new());
}
