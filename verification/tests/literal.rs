use csv2sav::literal::parses_as_float;

fn agrees(text: &str) {
    assert_eq!(
        parses_as_float(text.as_bytes()),
        text.parse::<f64>().is_ok(),
        "for {text:?}"
    );
}

#[test]
fn plain_numbers_are_literals() {
    for t in ["0", "1", "42", "-7", "+7", "3.14", "-0.5", "1.", ".5", "+.5", "-1.", "007"] {
        assert!(parses_as_float(t.as_bytes()), "{t}");
    }
}

#[test]
fn exponents_are_literals() {
    for t in ["1e5", "1E5", "1e+5", "1e-5", "1.5e10", ".5e1", "5.e1", "-1.25E-3", "0e0"] {
        assert!(parses_as_float(t.as_bytes()), "{t}");
    }
}

#[test]
fn special_words_are_literals_in_any_case() {
    for t in ["inf", "INF", "Inf", "-inf", "+inf", "infinity", "Infinity", "-INFINITY", "nan",
        "NaN", "NAN", "-nan", "+NaN"]
    {
        assert!(parses_as_float(t.as_bytes()), "{t}");
    }
}

#[test]
fn other_texts_are_no_literals() {
    for t in ["", "+", "-", ".", "+.", "e5", "1e", "1e+", "1e-", ".e1", "1.2.3", "1,5", "1 ",
        " 1", "1_000", "0x10", "abc", "in", "infinit", "infinityy", "na", "nanx", "--1", "+-1",
        "1e5.0", "1e5e5", "1f", "١٢٣", "é", "1é", "inf ", "ınf"]
    {
        assert!(!parses_as_float(t.as_bytes()), "{t}");
    }
}

#[test]
fn agrees_with_the_standard_parser_on_a_corpus() {
    let pieces = ["", "+", "-", "0", "1", "9", "12", ".", "e", "E", "inf", "nan", "infinity",
        "i", "n", " ", "x", "_", "٣"];
    for a in pieces {
        for b in pieces {
            for c in pieces {
                for d in pieces {
                    let text = format!("{a}{b}{c}{d}");
                    agrees(&text);
                }
            }
        }
    }
}

#[test]
fn agrees_with_the_standard_parser_on_long_exponent_forms() {
    for sign in ["", "+", "-"] {
        for mant in ["1", "1.", ".1", "1.1", "", "."] {
            for e in ["", "e", "E"] {
                for esign in ["", "+", "-"] {
                    for digits in ["", "0", "12", "400", "1a"] {
                        agrees(&format!("{sign}{mant}{e}{esign}{digits}"));
                    }
                }
            }
        }
    }
}
