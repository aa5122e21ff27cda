use reddoc::questions::{bool_answer, option_answer, BoolReply, OptionReply};

#[test]
fn bool_answers() {
    assert_eq!(bool_answer("yes\n"), BoolReply::Yes);
    assert_eq!(bool_answer("Y"), BoolReply::Yes);
    assert_eq!(bool_answer("no\n"), BoolReply::No);
    assert_eq!(bool_answer("N"), BoolReply::No);
    assert_eq!(bool_answer("maybe\n"), BoolReply::Invalid);
    assert_eq!(bool_answer("\n"), BoolReply::Invalid);
    assert_eq!(bool_answer(" y"), BoolReply::Invalid);
    assert_eq!(bool_answer(""), BoolReply::Empty);
}

#[test]
fn option_answers() {
    assert_eq!(option_answer(" 2 \n", 3), OptionReply::Chosen(2));
    assert_eq!(option_answer("+3\n", 3), OptionReply::Chosen(3));
    assert_eq!(option_answer("4\n", 3), OptionReply::OutOfRange);
    assert_eq!(option_answer("0\n", 3), OptionReply::OutOfRange);
    assert_eq!(option_answer("\n", 3), OptionReply::Invalid);
    assert_eq!(option_answer("two\n", 3), OptionReply::Invalid);
    assert_eq!(option_answer("99999999999999999999999\n", 3), OptionReply::Invalid);
}
