use cgrammar::print::{
    constant_text, floating_suffix_text, integer_suffix_text, integer_text, punctuator_text,
};
use cgrammar::syntax::SyntaxKind;
use cgrammar::token::BalancedToken;
use cgrammar::value::read_token;
use cgrammar::token::{
    CharacterConstant, Constant, EncodingPrefix, FloatingConstant, FloatingSuffix, IntegerConstant,
    IntegerSuffix, PredefinedConstant, Punctuator,
};

#[test]
fn punctuators_are_spelled() {
    assert_eq!(punctuator_text(Punctuator::Arrow), "->");
    assert_eq!(punctuator_text(Punctuator::LeftShiftAssign), "<<=");
    assert_eq!(punctuator_text(Punctuator::Ellipsis), "...");
    assert_eq!(punctuator_text(Punctuator::HashHash), "##");
    assert_eq!(punctuator_text(Punctuator::Scope), "::");
    assert_eq!(punctuator_text(Punctuator::LeftBrace), "{");
}

#[test]
fn integers_are_spelled() {
    assert_eq!(integer_text(IntegerConstant { value: 42, suffix: None }), "42");
    assert_eq!(integer_text(IntegerConstant { value: 0, suffix: Some(IntegerSuffix::UnsignedLongLong) }), "0ULL");
    assert_eq!(integer_text(IntegerConstant { value: -17, suffix: Some(IntegerSuffix::Long) }), "-17L");
    assert_eq!(integer_text(IntegerConstant { value: i128::MIN, suffix: None }), i128::MIN.to_string());
    assert_eq!(integer_text(IntegerConstant { value: 1234567890123, suffix: None }), "1234567890123");
}

#[test]
fn constants_are_spelled() {
    let c = Constant::Character(CharacterConstant { encoding_prefix: Some(EncodingPrefix::CapitalU), value: "a\n'".to_string() });
    assert_eq!(constant_text(&c), Some("U'a\\n\\''".to_string()));
    let plain = Constant::Character(CharacterConstant { encoding_prefix: None, value: "\u{7}".to_string() });
    assert_eq!(constant_text(&plain), Some("'\\a'".to_string()));
    let octal = Constant::Character(CharacterConstant { encoding_prefix: None, value: "\u{1b}\u{0}7".to_string() });
    assert_eq!(constant_text(&octal), Some("'\\033\\0007'".to_string()));
    assert_eq!(constant_text(&Constant::Predefined(PredefinedConstant::Nullptr)), Some("nullptr".to_string()));
    assert_eq!(constant_text(&Constant::Integer(IntegerConstant { value: 7, suffix: Some(IntegerSuffix::Unsigned) })), Some("7U".to_string()));
    assert_eq!(constant_text(&Constant::Floating(FloatingConstant { suffix: Some(FloatingSuffix::F) })), None);
    assert_eq!(floating_suffix_text(FloatingSuffix::DL), "dl");
}

#[test]
fn bit_precise_suffixes_are_spelled() {
    assert_eq!(integer_suffix_text(IntegerSuffix::BitPrecise), "wb");
    assert_eq!(integer_suffix_text(IntegerSuffix::UnsignedBitPrecise), "uwb");
    assert_eq!(integer_text(IntegerConstant { value: 5, suffix: Some(IntegerSuffix::BitPrecise) }), "5wb");
}

fn read_back(kind: SyntaxKind, text: &str) -> Option<BalancedToken> {
    read_token(kind, &text.chars().collect::<Vec<char>>())
}

#[test]
fn printed_constants_read_back() {
    let suffixes = [
        None,
        Some(IntegerSuffix::Unsigned),
        Some(IntegerSuffix::Long),
        Some(IntegerSuffix::LongLong),
        Some(IntegerSuffix::UnsignedLong),
        Some(IntegerSuffix::UnsignedLongLong),
        Some(IntegerSuffix::BitPrecise),
        Some(IntegerSuffix::UnsignedBitPrecise),
    ];
    for value in [0i128, 5, 10, 987654321, i128::MAX] {
        for suffix in suffixes {
            let i = IntegerConstant { value, suffix };
            match read_back(SyntaxKind::IntegerConst, &integer_text(i)) {
                Some(BalancedToken::Constant(Constant::Integer(j))) => assert_eq!(j, i),
                other => panic!("{:?}", other),
            }
        }
    }
    let c = CharacterConstant { encoding_prefix: Some(EncodingPrefix::U8), value: "a\\'\"\n\u{1b}\u{0}1\u{7}?".to_string() };
    let text = constant_text(&Constant::Character(c.clone())).unwrap();
    match read_back(SyntaxKind::CharConst, &text) {
        Some(BalancedToken::Constant(Constant::Character(d))) => {
            assert_eq!(d.encoding_prefix, c.encoding_prefix);
            assert_eq!(d.value, c.value);
        },
        other => panic!("{:?}", other),
    }
}
