use mylog::{Builder, ColorMode, Destination, Format, Level, LevelFilter, MAX_ENTRY_SIZE};

/// A plain `Google` entry: level letter, time, thread, target, message.
#[test]
fn google_plain() {
    let l = Builder::new().set_spec("info").set_color(ColorMode::Never).build(false);
    let e = l.render(Level::Info, "20210308 21:31:24.255", "main", "moonfire_nvr", "Success.");
    assert_eq!(e.get(), "I20210308 21:31:24.255 main moonfire_nvr] Success.\n");
}

/// Each level has its letter.
#[test]
fn google_level_letters() {
    let l = Builder::new().set_color(ColorMode::Never).build(false);
    for (level, letter) in [
        (Level::Error, "E"),
        (Level::Warn, "W"),
        (Level::Info, "I"),
        (Level::Debug, "D"),
        (Level::Trace, "T"),
    ] {
        let e = l.render(level, "t", "th", "tg", "m");
        assert_eq!(e.get(), format!("{letter}t th tg] m\n"));
    }
}

/// With color on, errors and warnings are wrapped in escape codes; the other
/// levels are not.
#[test]
fn google_color() {
    let l = Builder::new().set_color(ColorMode::Always).build(false);
    let e = l.render(Level::Error, "t", "th", "tg", "m");
    assert_eq!(e.get(), "\x1b[31;1mEt th tg] m\x1b[0m\n");
    let w = l.render(Level::Warn, "t", "th", "tg", "m");
    assert_eq!(w.get(), "\x1b[33;1mWt th tg] m\x1b[0m\n");
    let i = l.render(Level::Info, "t", "th", "tg", "m");
    assert_eq!(i.get(), "It th tg] m\n");
}

/// The service-manager format replaces the level letter with a priority
/// prefix, omits the time, and ignores color.
#[test]
fn systemd_format() {
    let l = Builder::new()
        .set_format(Format::GoogleSystemd)
        .set_color(ColorMode::Always)
        .build(true);
    for (level, code) in [
        (Level::Error, "<3>"),
        (Level::Warn, "<4>"),
        (Level::Info, "<5>"),
        (Level::Debug, "<6>"),
        (Level::Trace, "<7>"),
    ] {
        let e = l.render(level, "ignored", "main", "tg", "m");
        assert_eq!(e.get(), format!("{code}main tg] m\n"));
    }
}

/// `Auto` color follows the terminal; `Always` and `Never` decide directly.
#[test]
fn build_resolves_color() {
    let auto_tty = Builder::new().set_color(ColorMode::Auto).build(true);
    assert_eq!(auto_tty.use_color, true);
    let auto_pipe = Builder::new().set_color(ColorMode::Auto).build(false);
    assert_eq!(auto_pipe.use_color, false);
    let always = Builder::new().set_color(ColorMode::Never).build(true);
    assert_eq!(always.use_color, false);
    let systemd = Builder::new()
        .set_format(Format::GoogleSystemd)
        .set_color(ColorMode::Always)
        .build(true);
    assert_eq!(systemd.use_color, false);
}

/// The builder's defaults: no specification (so the catch-all `Error` rule),
/// `Google` format, standard error, automatic color.
#[test]
fn builder_defaults() {
    let b = Builder::new();
    assert_eq!(b.fmt, Format::Google);
    assert_eq!(b.dest, Destination::Stderr);
    assert_eq!(b.color, ColorMode::Auto);
    let l = b.build(false);
    assert_eq!(l.filter.max, LevelFilter::Error);
    assert_eq!(l.filter.get_level("anything"), LevelFilter::Error);
}

/// `prepare` filters by the specification: `None` exactly for rejected
/// calls, the rendered entry otherwise.
#[test]
fn prepare_filters() {
    let l = Builder::new().set_spec("info,noisy=off").set_color(ColorMode::Never).build(false);
    assert!(l.prepare(Level::Debug, "t", "th", "tg", "m").is_none());
    assert!(l.prepare(Level::Info, "t", "th", "noisy::x", "m").is_none());
    let e = l.prepare(Level::Warn, "t", "th", "tg", "m").unwrap();
    assert_eq!(e.get(), "Wt th tg] m\n");
    assert!(l.enabled("tg", Level::Info));
    assert!(!l.enabled("tg", Level::Debug));
}

/// An oversized message is truncated through the entry buffer: the entry is
/// capped at the buffer capacity and still ends in exactly one newline.
#[test]
fn render_truncates() {
    let l = Builder::new().set_color(ColorMode::Never).build(false);
    let msg = "m".repeat(MAX_ENTRY_SIZE);
    let e = l.render(Level::Info, "t", "th", "tg", &msg);
    assert_eq!(e.len(), MAX_ENTRY_SIZE);
    let bytes = e.get().as_bytes();
    assert_eq!(bytes[MAX_ENTRY_SIZE - 1], b'\n');
    assert!(bytes.starts_with(b"It th tg] mmm"));
    assert_eq!(bytes.iter().filter(|&&b| b == b'\n').count(), 1);
}

/// The two format names parse; anything else is rejected.
#[test]
fn format_names() {
    assert_eq!(Format::from_str("google"), Ok(Format::Google));
    assert_eq!(Format::from_str("google-systemd"), Ok(Format::GoogleSystemd));
    assert_eq!(Format::from_str("glog"), Err(()));
    assert_eq!(Format::from_str(""), Err(()));
}

/// The color-mode aliases parse; anything else is rejected.
#[test]
fn color_mode_names() {
    assert_eq!(ColorMode::from_str("never"), Ok(ColorMode::Never));
    assert_eq!(ColorMode::from_str("off"), Ok(ColorMode::Never));
    assert_eq!(ColorMode::from_str("no"), Ok(ColorMode::Never));
    assert_eq!(ColorMode::from_str("false"), Ok(ColorMode::Never));
    assert_eq!(ColorMode::from_str("always"), Ok(ColorMode::Always));
    assert_eq!(ColorMode::from_str("on"), Ok(ColorMode::Always));
    assert_eq!(ColorMode::from_str("yes"), Ok(ColorMode::Always));
    assert_eq!(ColorMode::from_str("true"), Ok(ColorMode::Always));
    assert_eq!(ColorMode::from_str("auto"), Ok(ColorMode::Auto));
    assert_eq!(ColorMode::from_str("AUTO"), Err(()));
    assert_eq!(ColorMode::from_str(""), Err(()));
}
