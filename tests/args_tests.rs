use namethingy::args::{ProgramArgErrorKind, ProgramArgs};

#[test]
fn parses_numbers_and_corpus() {
    let a = ProgramArgs::parse("3", "+12", String::from("names.txt"), true).unwrap();
    assert_eq!(a.order, 3);
    assert_eq!(a.limit, 12);
    assert_eq!(a.corpus, "names.txt");
}

#[test]
fn bad_numbers_are_refused() {
    for (o, l) in [("x", "1"), ("2", "-1"), ("", "3"), ("0", "3"), ("2", "99999999999999999999999")] {
        let e = ProgramArgs::parse(o, l, String::from("c"), true).err().unwrap();
        assert_eq!(e.kind, ProgramArgErrorKind::NumberParseError);
        assert_eq!(e.message(), "Invalid number");
    }
}

#[test]
fn missing_corpus_is_refused() {
    let e = ProgramArgs::parse("2", "10", String::from("nowhere"), false).err().unwrap();
    assert_eq!(e.kind, ProgramArgErrorKind::InvalidFilePath);
    assert_eq!(e.message(), "Invalid file path");
}
