use structmd::errors::{render, render_vec, render_verbose, Diagnostic, Error, ErrorFormatter};

// ── Sample error enum (what a service would define) ──

#[derive(Debug)]
enum AppError {
    Io { path: String, source: std::io::Error },
    MissingProperty { line: usize, section: String, key: String },
    InvalidValue { line: usize, section: String, key: String, got: String, expected: String },
    BadSchedule { line: usize, section: String, got: String },
}

impl Diagnostic for AppError {
    fn render(&self, f: &mut ErrorFormatter) {
        match self {
            AppError::Io { path, source } => {
                f.code("io_error");
                f.field("file", path);
                f.field("got", &source.to_string());
            }
            AppError::MissingProperty { line, section, key } => {
                f.code("missing_property");
                f.line(*line);
                f.field("section", section);
                f.field("key", key);
            }
            AppError::InvalidValue { line, section, key, got, expected } => {
                f.code("invalid_value");
                f.line(*line);
                f.field("section", section);
                f.field("key", key);
                f.field("got", got);
                f.field("expected", expected);
            }
            AppError::BadSchedule { line, section, got } => {
                f.code("invalid_value");
                f.line(*line);
                f.field("section", section);
                f.field("key", "schedule");
                f.field("got", got);
                f.fix("use `every 5m`, `every 2h`, or 5-field cron");
            }
        }
    }
}

// ── Dense table format tests ──

#[test]
fn render_single_error_table() {
    let err = AppError::MissingProperty {
        line: 3,
        section: "Container".into(),
        key: "image".into(),
    };
    let output = render("myapp", &err);
    assert!(output.contains("# myapp — 1 error(s)"), "missing header:\n{}", output);
    assert!(output.contains("| line"), "missing table header:\n{}", output);
    assert!(output.contains("missing_property"), "missing code:\n{}", output);
    assert!(output.contains("image"), "missing key:\n{}", output);
    assert!(output.contains("Container"), "missing section:\n{}", output);
}

#[test]
fn render_multiple_errors_table() {
    let errors = vec![
        AppError::MissingProperty {
            line: 3,
            section: "Container".into(),
            key: "image".into(),
        },
        AppError::InvalidValue {
            line: 15,
            section: "backup".into(),
            key: "log".into(),
            got: "maybe".into(),
            expected: "true or false".into(),
        },
    ];
    let output = render_vec("myapp", &errors);
    assert!(output.contains("2 error(s)"), "wrong count:\n{}", output);
    // Both rows present
    assert!(output.contains("image"), "missing first error:\n{}", output);
    assert!(output.contains("maybe"), "missing second error:\n{}", output);
}

#[test]
fn fix_auto_derived_missing_property() {
    let err = AppError::MissingProperty {
        line: 3,
        section: "Container".into(),
        key: "image".into(),
    };
    let output = render("myapp", &err);
    assert!(output.contains("add `- image: <value>`"), "missing fix:\n{}", output);
}

#[test]
fn fix_auto_derived_invalid_value() {
    let err = AppError::InvalidValue {
        line: 10,
        section: "item".into(),
        key: "color".into(),
        got: "purple".into(),
        expected: "red, green, or blue".into(),
    };
    let output = render("myapp", &err);
    assert!(output.contains("change `color` to red, green, or blue"), "missing fix:\n{}", output);
}

#[test]
fn fix_auto_derived_io_error() {
    let err = AppError::Io {
        path: "/tmp/missing.md".into(),
        source: std::io::Error::new(std::io::ErrorKind::NotFound, "not found"),
    };
    let output = render("myapp", &err);
    assert!(output.contains("io_error"), "missing code:\n{}", output);
    assert!(output.contains("check that the file exists"), "missing fix:\n{}", output);
}

#[test]
fn fix_override() {
    let err = AppError::BadSchedule {
        line: 14,
        section: "backup".into(),
        got: "every tuesday".into(),
    };
    let output = render("myapp", &err);
    assert!(output.contains("use `every 5m`, `every 2h`, or 5-field cron"), "missing fix override:\n{}", output);
}

#[test]
fn legacy_error_struct_renders() {
    let err = Error::new("test.md", 5, "Container", "missing_property")
        .with_key("image")
        .with_expected("string");
    let output = render("mdlint", &err);
    assert!(output.contains("missing_property"), "missing code:\n{}", output);
    assert!(output.contains("image"), "missing key:\n{}", output);
    assert!(output.contains("add `- image: <value>`"), "missing fix:\n{}", output);
}

#[test]
fn render_vec_empty() {
    let errors: Vec<AppError> = vec![];
    let output = render_vec("myapp", &errors);
    assert!(output.contains("0 error(s)"));
}

// ── Verbose format tests ──

#[test]
fn verbose_has_sections() {
    let err = AppError::MissingProperty {
        line: 3,
        section: "Container".into(),
        key: "image".into(),
    };
    let output = render_verbose("myapp", &err);
    assert!(output.contains("## error-1"), "verbose should have sections:\n{}", output);
    assert!(output.contains("- code: missing_property"), "verbose should have properties:\n{}", output);
}

#[test]
fn dense_has_no_sections() {
    let err = AppError::MissingProperty {
        line: 3,
        section: "Container".into(),
        key: "image".into(),
    };
    let output = render("myapp", &err);
    assert!(!output.contains("## error-"), "dense should not have sections:\n{}", output);
}

