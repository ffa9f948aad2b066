use rigor_infer::kernel::ruby_float_text;
use rigor_infer::kernel::{kernel_conversion, ruby_integer, ruby_string_of, sprintf, strip_underscores_between_digits};
use rigor_infer::scalar::Scalar;

fn s(x: &str) -> Scalar {
    Scalar::Str(x.to_string())
}

fn fl(x: f64) -> Scalar {
    Scalar::Float(x.to_bits())
}

#[test]
fn sprintf_integer_and_string_basics() {
    assert_eq!(sprintf("%d", &[Scalar::Int(1)]).as_deref(), Some("1"));
    assert_eq!(sprintf("%d", &[Scalar::Int(42)]).as_deref(), Some("42"));
    assert_eq!(sprintf("hello", &[]).as_deref(), Some("hello"));
    assert_eq!(sprintf("%s", &[s("x")]).as_deref(), Some("x"));
    assert_eq!(sprintf("%s", &[Scalar::Int(42)]).as_deref(), Some("42"));
    assert_eq!(sprintf("%s", &[Scalar::Nil]).as_deref(), Some(""));
    assert_eq!(sprintf("%s", &[Scalar::Sym("sym".into())]).as_deref(), Some("sym"));
    assert_eq!(sprintf("%s", &[Scalar::Bool(true)]).as_deref(), Some("true"));
    assert_eq!(
        sprintf("%d %s", &[Scalar::Int(1), s("a")]).as_deref(),
        Some("1 a")
    );
}

#[test]
fn sprintf_flags_width_precision() {
    assert_eq!(sprintf("%05d", &[Scalar::Int(42)]).as_deref(), Some("00042"));
    assert_eq!(sprintf("%-5d|", &[Scalar::Int(42)]).as_deref(), Some("42   |"));
    assert_eq!(sprintf("%+d", &[Scalar::Int(42)]).as_deref(), Some("+42"));
    assert_eq!(sprintf("% d", &[Scalar::Int(42)]).as_deref(), Some(" 42"));
    assert_eq!(sprintf("%x", &[Scalar::Int(255)]).as_deref(), Some("ff"));
    assert_eq!(sprintf("%X", &[Scalar::Int(255)]).as_deref(), Some("FF"));
    assert_eq!(sprintf("%o", &[Scalar::Int(8)]).as_deref(), Some("10"));
    assert_eq!(sprintf("%b", &[Scalar::Int(5)]).as_deref(), Some("101"));
    assert_eq!(sprintf("%#x", &[Scalar::Int(255)]).as_deref(), Some("0xff"));
    assert_eq!(sprintf("%c", &[Scalar::Int(65)]).as_deref(), Some("A"));
    assert_eq!(sprintf("%.3d", &[Scalar::Int(42)]).as_deref(), Some("042"));
    assert_eq!(sprintf("%5s", &[s("hi")]).as_deref(), Some("   hi"));
    assert_eq!(sprintf("%-5s|", &[s("hi")]).as_deref(), Some("hi   |"));
    assert_eq!(sprintf("%.3s", &[s("hello")]).as_deref(), Some("hel"));
    assert_eq!(sprintf("%d", &[fl(3.9)]).as_deref(), Some("3"));
}

#[test]
fn sprintf_percent_and_p() {
    assert_eq!(sprintf("%%", &[]).as_deref(), Some("%"));
    assert_eq!(sprintf("100%%", &[]).as_deref(), Some("100%"));
    assert_eq!(sprintf("%p", &[s("x")]).as_deref(), Some("\"x\""));
}

#[test]
fn sprintf_declines() {
    // arg-count mismatch (too few / too many)
    assert_eq!(sprintf("%d", &[]), None);
    assert_eq!(sprintf("%d", &[Scalar::Int(1), Scalar::Int(2)]), None);
    // arg-type mismatch
    assert_eq!(sprintf("%d", &[s("x")]), None);
    // unknown directive
    assert_eq!(sprintf("%z", &[Scalar::Int(1)]), None);
    // float conversions declined
    assert_eq!(sprintf("%f", &[fl(3.14)]), None);
    assert_eq!(sprintf("%e", &[fl(1000.0)]), None);
    assert_eq!(sprintf("%g", &[fl(0.0001)]), None);
    // dynamic / positional / named forms
    assert_eq!(sprintf("%*d", &[Scalar::Int(5), Scalar::Int(1)]), None);
    assert_eq!(sprintf("%1$s", &[s("a")]), None);
    // trailing bare percent
    assert_eq!(sprintf("abc%", &[]), None);
    // negative radix declines (two's-complement notation)
    assert_eq!(sprintf("%x", &[Scalar::Int(-1)]), None);
}

#[test]
fn sprintf_huge_width_declines() {
    assert_eq!(sprintf("%099999999d", &[Scalar::Int(1)]), None);
    assert_eq!(sprintf("%.99999999d", &[Scalar::Int(1)]), None);
    assert_eq!(sprintf("%9999d", &[Scalar::Int(1)]), None); // over the 4096 cap
    // A width just under the cap folds and is bounded.
    let r = sprintf("%4000d", &[Scalar::Int(1)]).unwrap();
    assert_eq!(r.len(), 4000);
}

#[test]
fn sprintf_never_panics_fuzz() {
    let templates = [
        "%", "%%%", "%-", "%+", "% ", "%#", "%0", "%.", "%.5", "%-0+ #d",
        "%99999999999999999999d", "%.99999999999999999999d", "%*.*d", "%<x>s",
        "%{x}", "%$", "%1$", "%c", "%s%s%s", "abc", "", "%d%", "%09d",
        "%\u{1F600}d", "\u{1F600}%d", "%p", "%b", "%o", "%x%X%o%b",
    ];
    let args = [
        Scalar::Int(1),
        Scalar::Int(-5),
        fl(2.5),
        Scalar::Str("hi".into()),
        Scalar::Nil,
    ];
    for t in templates {
        let _ = sprintf(t, &[]);
        let _ = sprintf(t, &args[..1]);
        let _ = sprintf(t, &args);
    }
}

#[test]
fn integer_accepts() {
    assert_eq!(ruby_integer(&s("42"), None), Some(42));
    assert_eq!(ruby_integer(&s("-7"), None), Some(-7));
    assert_eq!(ruby_integer(&s("+42"), None), Some(42));
    assert_eq!(ruby_integer(&s("0x1A"), None), Some(26));
    assert_eq!(ruby_integer(&s("1_000"), None), Some(1000));
    assert_eq!(ruby_integer(&s(" 42 "), None), Some(42));
    assert_eq!(ruby_integer(&s("42"), Some(16)), Some(66));
    assert_eq!(ruby_integer(&s("0b101"), None), Some(5));
    assert_eq!(ruby_integer(&s("0o17"), None), Some(15));
    assert_eq!(ruby_integer(&s("017"), None), Some(15));
    assert_eq!(ruby_integer(&s("  0x1A  "), None), Some(26));
    assert_eq!(ruby_integer(&fl(3.9), None), Some(3));
    assert_eq!(ruby_integer(&fl(-3.9), None), Some(-3));
    assert_eq!(ruby_integer(&Scalar::Int(5), None), Some(5));
}

#[test]
fn integer_declines() {
    assert_eq!(ruby_integer(&s("abc"), None), None);
    assert_eq!(ruby_integer(&s(""), None), None);
    assert_eq!(ruby_integer(&s("1.5"), None), None);
    assert_eq!(ruby_integer(&s("1__0"), None), None); // doubled underscore
    assert_eq!(ruby_integer(&s("_10"), None), None); // leading underscore
    assert_eq!(ruby_integer(&s("10_"), None), None); // trailing underscore
    assert_eq!(ruby_integer(&s("0x1G"), None), None); // bad hex digit
    assert_eq!(ruby_integer(&Scalar::Int(5), Some(16)), None); // base + int raises
    assert_eq!(ruby_integer(&Scalar::Nil, None), None);
    assert_eq!(ruby_integer(&fl(f64::NAN), None), None);
    assert_eq!(ruby_integer(&fl(1e30), None), None); // overflow i64
    // prefix vs explicit base mismatch
    assert_eq!(ruby_integer(&s("0x1A"), Some(10)), None);
}

// --- Further cases -----------------------------------------------------------

#[test]
fn string_of_non_float_scalars() {
    assert_eq!(ruby_string_of(&Scalar::Int(42)).as_deref(), Some("42"));
    assert_eq!(ruby_string_of(&Scalar::Int(-7)).as_deref(), Some("-7"));
    assert_eq!(ruby_string_of(&Scalar::Nil).as_deref(), Some(""));
    assert_eq!(ruby_string_of(&Scalar::Sym("sym".into())).as_deref(), Some("sym"));
    assert_eq!(ruby_string_of(&Scalar::Bool(true)).as_deref(), Some("true"));
    assert_eq!(ruby_string_of(&Scalar::Bool(false)).as_deref(), Some("false"));
    assert_eq!(ruby_string_of(&s("hi")).as_deref(), Some("hi"));
}

#[test]
fn string_of_float_is_left_to_the_caller() {
    assert_eq!(ruby_string_of(&fl(3.0)), None);
}

#[test]
fn sprintf_radix_and_alternate_forms() {
    assert_eq!(sprintf("%#o", &[Scalar::Int(8)]).as_deref(), Some("010"));
    assert_eq!(sprintf("%#b", &[Scalar::Int(5)]).as_deref(), Some("0b101"));
    assert_eq!(sprintf("%#B", &[Scalar::Int(5)]).as_deref(), Some("0B101"));
    assert_eq!(sprintf("%#X", &[Scalar::Int(255)]).as_deref(), Some("0XFF"));
    // `#` on zero adds no prefix.
    assert_eq!(sprintf("%#x", &[Scalar::Int(0)]).as_deref(), Some("0"));
    assert_eq!(sprintf("%08.3x", &[Scalar::Int(255)]).as_deref(), Some("     0ff"));
    assert_eq!(sprintf("%.0d", &[Scalar::Int(0)]).as_deref(), Some(""));
    assert_eq!(sprintf("%05d", &[Scalar::Int(-42)]).as_deref(), Some("-0042"));
    assert_eq!(sprintf("%i|%u", &[Scalar::Int(7), Scalar::Int(8)]).as_deref(), Some("7|8"));
}

#[test]
fn sprintf_inspect_and_char_forms() {
    assert_eq!(sprintf("%p", &[Scalar::Int(-3)]).as_deref(), Some("-3"));
    assert_eq!(sprintf("%p", &[Scalar::Nil]).as_deref(), Some("nil"));
    assert_eq!(sprintf("%p", &[Scalar::Bool(false)]).as_deref(), Some("false"));
    assert_eq!(sprintf("%p", &[Scalar::Sym("ok_1".into())]).as_deref(), Some(":ok_1"));
    assert_eq!(sprintf("%p", &[s("a\"b\\c")]).as_deref(), Some("\"a\\\"b\\\\c\""));
    // Shapes whose spelling is not reproduced decline.
    assert_eq!(sprintf("%p", &[Scalar::Sym("a-b".into())]), None);
    assert_eq!(sprintf("%p", &[s("#{x}")]), None);
    assert_eq!(sprintf("%p", &[fl(1.5)]), None);
    // `%c` of a code point and of a one-character string.
    assert_eq!(sprintf("%c", &[Scalar::Int(0x1F600)]).as_deref(), Some("\u{1F600}"));
    assert_eq!(sprintf("%3c", &[s("z")]).as_deref(), Some("  z"));
    assert_eq!(sprintf("%c", &[Scalar::Int(0xD800)]), None);
    assert_eq!(sprintf("%c", &[Scalar::Int(-1)]), None);
    assert_eq!(sprintf("%c", &[s("zz")]), None);
    assert_eq!(sprintf("%.1c", &[Scalar::Int(65)]), None);
}

#[test]
fn sprintf_output_byte_limit() {
    let t = "a".repeat(4096);
    assert_eq!(sprintf(&t, &[]).map(|o| o.len()), Some(4096));
    let t = "a".repeat(4097);
    assert_eq!(sprintf(&t, &[]), None);
    // Multi-byte characters count by bytes.
    let t = "\u{e9}".repeat(2049);
    assert_eq!(sprintf(&t, &[]), None);
    assert_eq!(sprintf("%4096d%d", &[Scalar::Int(1), Scalar::Int(2)]), None);
}

#[test]
fn kernel_conversions_of_pinned_arguments() {
    assert_eq!(kernel_conversion("format", &[s("%03d"), Scalar::Int(7)]), Some(s("007")));
    assert_eq!(kernel_conversion("sprintf", &[s("%s-%s"), Scalar::Int(1), Scalar::Nil]), Some(s("1-")));
    assert_eq!(kernel_conversion("format", &[Scalar::Int(1)]), None);
    assert_eq!(kernel_conversion("String", &[Scalar::Sym("a".into())]), Some(s("a")));
    assert_eq!(kernel_conversion("String", &[]), None);
    assert_eq!(kernel_conversion("Integer", &[s("ff"), Scalar::Int(16)]), Some(Scalar::Int(255)));
    assert_eq!(kernel_conversion("Integer", &[s("12")]), Some(Scalar::Int(12)));
    assert_eq!(kernel_conversion("Integer", &[s("12"), s("8")]), None);
    assert_eq!(kernel_conversion("Float", &[s("1.5")]), None);
}

#[test]
fn integer_edges() {
    assert_eq!(ruby_integer(&s("9223372036854775807"), None), Some(i64::MAX));
    assert_eq!(ruby_integer(&s("-9223372036854775808"), None), Some(i64::MIN));
    assert_eq!(ruby_integer(&s("9223372036854775808"), None), None);
    assert_eq!(ruby_integer(&s("0d19"), None), Some(19));
    assert_eq!(ruby_integer(&s("z"), Some(36)), Some(35));
    assert_eq!(ruby_integer(&s("1"), Some(37)), None);
    assert_eq!(ruby_integer(&s("0"), None), Some(0));
    assert_eq!(ruby_integer(&s("-0x10"), None), Some(-16));
    assert_eq!(ruby_integer(&s("\u{e9}1"), None), None);
}

#[test]
fn underscores_only_between_digits() {
    assert_eq!(strip_underscores_between_digits("1_000.5").as_deref(), Some("1000.5"));
    assert_eq!(strip_underscores_between_digits("1__0"), None);
    assert_eq!(strip_underscores_between_digits("_1"), None);
    assert_eq!(strip_underscores_between_digits("1_"), None);
    assert_eq!(strip_underscores_between_digits("a_1"), None);
    assert_eq!(strip_underscores_between_digits("12").as_deref(), Some("12"));
}

#[test]
fn radix_directives_take_the_sign_flags() {
    let i = |n: i64| [Scalar::Int(n)];
    assert_eq!(sprintf("%+x", &i(255)).as_deref(), Some("+ff"));
    assert_eq!(sprintf("% x", &i(255)).as_deref(), Some(" ff"));
    assert_eq!(sprintf("%+#x", &i(255)).as_deref(), Some("+0xff"));
    assert_eq!(sprintf("%+o", &i(8)).as_deref(), Some("+10"));
    assert_eq!(sprintf("%-+6b", &i(5)).as_deref(), Some("+101  "));
    // Zero padding goes between the prefix and the digits.
    assert_eq!(sprintf("%#08x", &i(255)).as_deref(), Some("0x0000ff"));
    assert_eq!(sprintf("%+08x", &i(255)).as_deref(), Some("+00000ff"));
    assert_eq!(sprintf("%8x", &i(255)).as_deref(), Some("      ff"));
}

#[test]
fn float_text_follows_ruby_float_grammar() {
    let ok = |t: &str, want: &str| assert_eq!(ruby_float_text(t).as_deref(), Some(want), "{t:?}");
    ok("1e3", "1e3");
    ok("  1.5  ", "1.5");
    ok("1_000.5", "1000.5");
    ok("-2", "-2");
    ok("+3.25E-2", "+3.25E-2");
    for bad in ["1.", ".5", "1.e5", "1e", "1e+", "0x1p4", "inf", "nan", "", ".", "1__0", "_1", "1_", "1.5x", "é1"] {
        assert_eq!(ruby_float_text(bad), None, "{bad:?}");
    }
}
