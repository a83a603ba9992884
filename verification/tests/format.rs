use rustdecks::format::{value_format, Number};

fn parts(f: &str) -> (String, Number, String) {
    let v = value_format(f);
    (v.prefix, v.number, v.suffix)
}

#[test]
fn value_formats_split() {
    assert_eq!(parts("{:.0}"), (String::new(), Number::Fixed(0), String::new()));
    assert_eq!(parts("{:.1}"), (String::new(), Number::Fixed(1), String::new()));
    assert_eq!(parts("{:.0} ft"), (String::new(), Number::Fixed(0), " ft".to_string()));
    assert_eq!(parts("{:.0}%"), (String::new(), Number::Fixed(0), "%".to_string()));
    assert_eq!(parts("{}"), (String::new(), Number::Plain, String::new()));
    assert_eq!(parts("ON"), ("ON".to_string(), Number::Absent, String::new()));
}

#[test]
fn precision_edges() {
    assert_eq!(parts("HDG {:.2f}°"), ("HDG ".to_string(), Number::Fixed(2), "°".to_string()));
    assert_eq!(parts("{:.3ff}"), (String::new(), Number::Fixed(3), String::new()));
    assert_eq!(parts("{:.x}"), (String::new(), Number::Plain, String::new()));
    assert_eq!(parts("{:.}"), (String::new(), Number::Plain, String::new()));
    assert_eq!(parts("{:.+4}"), (String::new(), Number::Fixed(4), String::new()));
    assert_eq!(parts("{:5}"), (String::new(), Number::Plain, String::new()));
    assert_eq!(parts("a{.1.2}b}"), ("a".to_string(), Number::Plain, "b}".to_string()));
    assert_eq!(parts("{ only"), ("{ only".to_string(), Number::Absent, String::new()));
    // a `}` before the first `{` is no placeholder: the text prints as it is
    assert_eq!(parts("}{"), ("}{".to_string(), Number::Absent, String::new()));
    assert_eq!(parts("} {x"), ("} {x".to_string(), Number::Absent, String::new()));
    assert_eq!(parts("}"), ("}".to_string(), Number::Absent, String::new()));
}

/// Print a number in a value format, as the application does with the
/// library's split of the format.
fn format_value(fmt: &str, v: f64) -> String {
    let f = value_format(fmt);
    let num = match f.number {
        Number::Absent => return f.prefix,
        Number::Fixed(p) => format!("{v:.p$}"),
        Number::Plain => {
            if v.fract() == 0.0 {
                format!("{}", v as i64)
            } else {
                format!("{v}")
            }
        }
    };
    format!("{}{num}{}", f.prefix, f.suffix)
}

#[test]
fn formatting() {
    assert_eq!(format_value("{:.0}", 95.4), "95");
    assert_eq!(format_value("{:.1}", 95.46), "95.5");
    assert_eq!(format_value("{:.0} ft", 5500.0), "5500 ft");
    assert_eq!(format_value("{:.0}%", 80.2), "80%");
    assert_eq!(format_value("{}", 24.0), "24");
    assert_eq!(format_value("{}", 24.5), "24.5");
    assert_eq!(format_value("ON", 1.0), "ON");
}
