//! An in-process log-entry delivery pipeline: log calls are filtered by a
//! per-target severity specification, rendered into a bounded entry buffer,
//! and delivered to an output sink either directly or through a
//! backpressure-bounded asynchronous exchange.

pub mod entry_buf;
pub mod exchange;
pub mod specification;

use vstd::prelude::*;

verus! {

use vstd::string::StringSliceAdditionalSpecFns;

/// The maximum number of bytes of a single log entry including the trailing `\n`.
///
/// Must be at least one (to fit the trailing `\n`) and must fit within the
/// program stack. If a log call tries to write more than this size, the entry
/// is truncated at an encoding boundary and still ends in `\n`.
pub const MAX_ENTRY_SIZE: usize = 65536;

/// Severity of a single log call, from most to least severe.
#[derive(Clone, Copy, Debug, PartialEq, Eq, Structural)]
pub enum Level {
    Error,
    Warn,
    Info,
    Debug,
    Trace,
}

/// Minimum severity a target must meet to be emitted; `Off` disables a target
/// entirely. Ordered `Off < Error < Warn < Info < Debug < Trace`.
#[derive(Clone, Copy, Debug, PartialEq, Eq, Structural)]
pub enum LevelFilter {
    Off,
    Error,
    Warn,
    Info,
    Debug,
    Trace,
}

/// Rank of a filter in the total order `Off < Error < ... < Trace`.
pub open spec fn filter_rank(f: LevelFilter) -> int {
    match f {
        LevelFilter::Off => 0,
        LevelFilter::Error => 1,
        LevelFilter::Warn => 2,
        LevelFilter::Info => 3,
        LevelFilter::Debug => 4,
        LevelFilter::Trace => 5,
    }
}

/// Rank of a level on the same scale as `filter_rank`.
pub open spec fn level_rank(l: Level) -> int {
    match l {
        Level::Error => 1,
        Level::Warn => 2,
        Level::Info => 3,
        Level::Debug => 4,
        Level::Trace => 5,
    }
}

impl Level {
    /// Executable rank, equal to `level_rank`.
    pub fn rank(&self) -> (r: u8)
        ensures
            r as int == level_rank(*self),
    {
        match *self {
            Level::Error => 1,
            Level::Warn => 2,
            Level::Info => 3,
            Level::Debug => 4,
            Level::Trace => 5,
        }
    }
}

impl LevelFilter {
    /// Executable rank, equal to `filter_rank`.
    pub fn rank(&self) -> (r: u8)
        ensures
            r as int == filter_rank(*self),
    {
        match *self {
            LevelFilter::Off => 0,
            LevelFilter::Error => 1,
            LevelFilter::Warn => 2,
            LevelFilter::Info => 3,
            LevelFilter::Debug => 4,
            LevelFilter::Trace => 5,
        }
    }

    /// Whether a call at level `l` passes this filter.
    pub fn admits(&self, l: Level) -> (b: bool)
        ensures
            b == (level_rank(l) <= filter_rank(*self)),
    {
        l.rank() <= self.rank()
    }

    /// The more detailed of `self` and `other`.
    pub fn most_detailed(self, other: LevelFilter) -> (r: LevelFilter)
        ensures
            r == (if filter_rank(self) >= filter_rank(other) {
                self
            } else {
                other
            }),
    {
        if self.rank() >= other.rank() {
            self
        } else {
            other
        }
    }
}

/// The format of logged messages.
#[derive(Debug, Eq, PartialEq, Structural, Clone, Copy)]
pub enum Format {
    /// Entry layout `LYYYYmmdd HH:MM:SS.FFF TTTT PPPP] message`, where `L` is
    /// one letter per level (`E`, `W`, `I`, `D`, `T`), optionally wrapped in
    /// color escape codes for errors and warnings, `TTTT` is the thread and
    /// `PPPP` the log target. This format honors the color choice.
    Google,

    /// The same layout adapted for a service manager's output: the date and
    /// time are omitted and the level letter is replaced with a numeric
    /// priority prefix, `<3>` (error) through `<7>` (trace). This format
    /// ignores the color choice.
    GoogleSystemd,
}

/// The level letter that opens an entry, wrapped in a color escape
/// for errors and warnings when color is on.
pub open spec fn google_prefix(level: Level, use_color: bool) -> Seq<u8> {
    match level {
        Level::Error => if use_color {
            "\x1b[31;1mE".spec_bytes()
        } else {
            "E".spec_bytes()
        },
        Level::Warn => if use_color {
            "\x1b[33;1mW".spec_bytes()
        } else {
            "W".spec_bytes()
        },
        Level::Info => "I".spec_bytes(),
        Level::Debug => "D".spec_bytes(),
        Level::Trace => "T".spec_bytes(),
    }
}

/// The color reset that closes a colored entry, empty otherwise.
pub open spec fn google_suffix(level: Level, use_color: bool) -> Seq<u8> {
    if use_color && (level == Level::Error || level == Level::Warn) {
        "\x1b[0m".spec_bytes()
    } else {
        "".spec_bytes()
    }
}

/// The numeric priority prefix understood by a service manager.
pub open spec fn systemd_prefix(level: Level) -> Seq<u8> {
    match level {
        Level::Error => "<3>".spec_bytes(),
        Level::Warn => "<4>".spec_bytes(),
        Level::Info => "<5>".spec_bytes(),
        Level::Debug => "<6>".spec_bytes(),
        Level::Trace => "<7>".spec_bytes(),
    }
}

/// The pieces of one entry in the `Google` format, in the order they are
/// appended.
pub open spec fn google_pieces(
    use_color: bool,
    level: Level,
    time: Seq<u8>,
    thread: Seq<u8>,
    target: Seq<u8>,
    msg: Seq<u8>,
) -> Seq<Seq<u8>> {
    seq![
        google_prefix(level, use_color),
        time,
        " ".spec_bytes(),
        thread,
        " ".spec_bytes(),
        target,
        "] ".spec_bytes(),
        msg,
        google_suffix(level, use_color),
    ]
}

/// The pieces of one entry in the `GoogleSystemd` format, in the order they
/// are appended.
pub open spec fn systemd_pieces(
    level: Level,
    thread: Seq<u8>,
    target: Seq<u8>,
    msg: Seq<u8>,
) -> Seq<Seq<u8>> {
    seq![
        systemd_prefix(level),
        thread,
        " ".spec_bytes(),
        target,
        "] ".spec_bytes(),
        msg,
    ]
}

/// The pieces of one entry in the given format.
pub open spec fn format_pieces(
    fmt: Format,
    use_color: bool,
    level: Level,
    time: Seq<u8>,
    thread: Seq<u8>,
    target: Seq<u8>,
    msg: Seq<u8>,
) -> Seq<Seq<u8>> {
    match fmt {
        Format::Google => google_pieces(use_color, level, time, thread, target, msg),
        Format::GoogleSystemd => systemd_pieces(level, thread, target, msg),
    }
}

impl Format {
    /// Parses a format name; the two recognized names are `google` and
    /// `google-systemd`.
    pub fn from_str(s: &str) -> (r: Result<Format, ()>)
        ensures
            r == spec_format_from_name(s.spec_bytes()),
    {
        if str_eq(s, "google") {
            Ok(Format::Google)
        } else if str_eq(s, "google-systemd") {
            Ok(Format::GoogleSystemd)
        } else {
            Err(())
        }
    }

    /// Writes one entry in this format into `buf`, truncating through the
    /// buffer's append contract. Returns `Truncated` unless every piece was
    /// written whole.
    pub fn write(
        &self,
        use_color: bool,
        level: Level,
        time: &str,
        thread: &str,
        target: &str,
        msg: &str,
        buf: &mut entry_buf::EntryBuf,
    ) -> (r: Result<(), entry_buf::Truncated>)
        requires
            old(buf).wf(),
        ensures
            final(buf).wf(),
            final(buf)@ == entry_buf::append_all(
                old(buf)@,
                format_pieces(
                    *self,
                    use_color,
                    level,
                    time.spec_bytes(),
                    thread.spec_bytes(),
                    target.spec_bytes(),
                    msg.spec_bytes(),
                ),
            ),
            r is Ok <==> final(buf)@ == old(buf)@ + entry_buf::concat_all(
                format_pieces(
                    *self,
                    use_color,
                    level,
                    time.spec_bytes(),
                    thread.spec_bytes(),
                    target.spec_bytes(),
                    msg.spec_bytes(),
                ),
            ),
    {
        match *self {
            Format::Google => Format::write_google(use_color, level, time, thread, target, msg, buf),
            Format::GoogleSystemd => Format::write_google_systemd(level, thread, target, msg, buf),
        }
    }

    /// Writes one entry in the `Google` format.
    pub fn write_google(
        use_color: bool,
        level: Level,
        time: &str,
        thread: &str,
        target: &str,
        msg: &str,
        buf: &mut entry_buf::EntryBuf,
    ) -> (r: Result<(), entry_buf::Truncated>)
        requires
            old(buf).wf(),
        ensures
            final(buf).wf(),
            final(buf)@ == entry_buf::append_all(
                old(buf)@,
                google_pieces(
                    use_color,
                    level,
                    time.spec_bytes(),
                    thread.spec_bytes(),
                    target.spec_bytes(),
                    msg.spec_bytes(),
                ),
            ),
            r is Ok <==> final(buf)@ == old(buf)@ + entry_buf::concat_all(
                google_pieces(
                    use_color,
                    level,
                    time.spec_bytes(),
                    thread.spec_bytes(),
                    target.spec_bytes(),
                    msg.spec_bytes(),
                ),
            ),
    {
        let (prefix, suffix): (&str, &str) = match (level, use_color) {
            (Level::Error, true) => ("\x1b[31;1mE", "\x1b[0m"),
            (Level::Error, false) => ("E", ""),
            (Level::Warn, true) => ("\x1b[33;1mW", "\x1b[0m"),
            (Level::Warn, false) => ("W", ""),
            (Level::Info, _) => ("I", ""),
            (Level::Debug, _) => ("D", ""),
            (Level::Trace, _) => ("T", ""),
        };
        let ghost b0 = buf@;
        let ghost ps = google_pieces(
            use_color,
            level,
            time.spec_bytes(),
            thread.spec_bytes(),
            target.spec_bytes(),
            msg.spec_bytes(),
        );
        proof {
            assert(ps.take(0) =~= Seq::<Seq<u8>>::empty());
            assert(b0 + entry_buf::concat_all(ps.take(0)) =~= b0);
            assert(prefix.spec_bytes() == google_prefix(level, use_color));
            assert(suffix.spec_bytes() == google_suffix(level, use_color));
        }
        let mut ok = true;
        ok = buf.append_piece(prefix, ok, Ghost(b0), Ghost(ps), Ghost(0));
        ok = buf.append_piece(time, ok, Ghost(b0), Ghost(ps), Ghost(1));
        ok = buf.append_piece(" ", ok, Ghost(b0), Ghost(ps), Ghost(2));
        ok = buf.append_piece(thread, ok, Ghost(b0), Ghost(ps), Ghost(3));
        ok = buf.append_piece(" ", ok, Ghost(b0), Ghost(ps), Ghost(4));
        ok = buf.append_piece(target, ok, Ghost(b0), Ghost(ps), Ghost(5));
        ok = buf.append_piece("] ", ok, Ghost(b0), Ghost(ps), Ghost(6));
        ok = buf.append_piece(msg, ok, Ghost(b0), Ghost(ps), Ghost(7));
        ok = buf.append_piece(suffix, ok, Ghost(b0), Ghost(ps), Ghost(8));
        proof {
            assert(ps.take(9) =~= ps);
        }
        if ok {
            Ok(())
        } else {
            Err(entry_buf::Truncated)
        }
    }

    /// Writes one entry in the `GoogleSystemd` format.
    pub fn write_google_systemd(
        level: Level,
        thread: &str,
        target: &str,
        msg: &str,
        buf: &mut entry_buf::EntryBuf,
    ) -> (r: Result<(), entry_buf::Truncated>)
        requires
            old(buf).wf(),
        ensures
            final(buf).wf(),
            final(buf)@ == entry_buf::append_all(
                old(buf)@,
                systemd_pieces(level, thread.spec_bytes(), target.spec_bytes(), msg.spec_bytes()),
            ),
            r is Ok <==> final(buf)@ == old(buf)@ + entry_buf::concat_all(
                systemd_pieces(level, thread.spec_bytes(), target.spec_bytes(), msg.spec_bytes()),
            ),
    {
        let code: &str = match level {
            Level::Error => "<3>",
            Level::Warn => "<4>",
            Level::Info => "<5>",
            Level::Debug => "<6>",
            Level::Trace => "<7>",
        };
        let ghost b0 = buf@;
        let ghost ps = systemd_pieces(
            level,
            thread.spec_bytes(),
            target.spec_bytes(),
            msg.spec_bytes(),
        );
        proof {
            assert(ps.take(0) =~= Seq::<Seq<u8>>::empty());
            assert(b0 + entry_buf::concat_all(ps.take(0)) =~= b0);
            assert(code.spec_bytes() == systemd_prefix(level));
        }
        let mut ok = true;
        ok = buf.append_piece(code, ok, Ghost(b0), Ghost(ps), Ghost(0));
        ok = buf.append_piece(thread, ok, Ghost(b0), Ghost(ps), Ghost(1));
        ok = buf.append_piece(" ", ok, Ghost(b0), Ghost(ps), Ghost(2));
        ok = buf.append_piece(target, ok, Ghost(b0), Ghost(ps), Ghost(3));
        ok = buf.append_piece("] ", ok, Ghost(b0), Ghost(ps), Ghost(4));
        ok = buf.append_piece(msg, ok, Ghost(b0), Ghost(ps), Ghost(5));
        proof {
            assert(ps.take(6) =~= ps);
        }
        if ok {
            Ok(())
        } else {
            Err(entry_buf::Truncated)
        }
    }
}

/// What `Format::from_str` recognizes.
pub open spec fn spec_format_from_name(s: Seq<u8>) -> Result<Format, ()> {
    if s == "google".spec_bytes() {
        Ok(Format::Google)
    } else if s == "google-systemd".spec_bytes() {
        Ok(Format::GoogleSystemd)
    } else {
        Err(())
    }
}

/// Byte-for-byte equality of two pieces of text.
pub fn str_eq(a: &str, b: &str) -> (r: bool)
    ensures
        r == (a.spec_bytes() == b.spec_bytes()),
{
    let ab = a.as_bytes();
    let bb = b.as_bytes();
    if ab.len() != bb.len() {
        return false;
    }
    let mut i: usize = 0;
    while i < ab.len()
        invariant
            0 <= i <= ab@.len(),
            ab@.len() == bb@.len(),
            ab@ == a.spec_bytes(),
            bb@ == b.spec_bytes(),
            forall|j: int| 0 <= j < i ==> ab@[j] == bb@[j],
        decreases ab@.len() - i,
    {
        if ab[i] != bb[i] {
            return false;
        }
        i = i + 1;
    }
    proof {
        assert(a.spec_bytes() =~= b.spec_bytes());
    }
    true
}

/// Where entries are delivered.
#[derive(Debug, Eq, PartialEq, Structural, Clone, Copy)]
pub enum Destination {
    Stderr,
    Stdout,
}

/// Whether to use color.
#[derive(Debug, Eq, PartialEq, Structural, Clone, Copy)]
pub enum ColorMode {
    /// Always use color.
    Always,

    /// Never use color.
    Never,

    /// Use color if the destination is a terminal.
    Auto,
}

impl ColorMode {
    /// Parses a color-mode name; several aliases are recognized for on and
    /// off.
    pub fn from_str(s: &str) -> (r: Result<ColorMode, ()>)
        ensures
            r == spec_color_from_name(s.spec_bytes()),
    {
        if str_eq(s, "never") || str_eq(s, "off") || str_eq(s, "no") || str_eq(s, "false") {
            Ok(ColorMode::Never)
        } else if str_eq(s, "always") || str_eq(s, "on") || str_eq(s, "yes") || str_eq(s, "true") {
            Ok(ColorMode::Always)
        } else if str_eq(s, "auto") {
            Ok(ColorMode::Auto)
        } else {
            Err(())
        }
    }
}

/// What `ColorMode::from_str` recognizes.
pub open spec fn spec_color_from_name(s: Seq<u8>) -> Result<ColorMode, ()> {
    if s == "never".spec_bytes() || s == "off".spec_bytes() || s == "no".spec_bytes() || s
        == "false".spec_bytes() {
        Ok(ColorMode::Never)
    } else if s == "always".spec_bytes() || s == "on".spec_bytes() || s == "yes".spec_bytes() || s
        == "true".spec_bytes() {
        Ok(ColorMode::Always)
    } else if s == "auto".spec_bytes() {
        Ok(ColorMode::Auto)
    } else {
        Err(())
    }
}

/// Whether entries are colored, resolved from the format, the configured
/// mode, and whether the destination is a terminal: the service-manager
/// format never colors, `Never` and `Always` decide directly, and `Auto`
/// follows the terminal.
pub open spec fn spec_use_color(fmt: Format, color: ColorMode, is_tty: bool) -> bool {
    if fmt == Format::GoogleSystemd || color == ColorMode::Never {
        false
    } else if color == ColorMode::Always {
        true
    } else {
        is_tty
    }
}

/// Configuration for a logger: the level specification, the entry format,
/// the destination, and the color mode.
pub struct Builder {
    /// The compiled level specification, when one was given.
    pub filter: Option<specification::Specification>,

    /// The entry format.
    pub fmt: Format,

    /// Where entries are delivered.
    pub dest: Destination,

    /// Whether entries are colored.
    pub color: ColorMode,
}

impl Builder {
    /// The default configuration: no specification, `Google` format, standard
    /// error, automatic color.
    pub fn new() -> (b: Builder)
        ensures
            b.filter is None,
            b.fmt == Format::Google,
            b.dest == Destination::Stderr,
            b.color == ColorMode::Auto,
    {
        Builder { filter: None, fmt: Format::Google, dest: Destination::Stderr, color: ColorMode::Auto }
    }

    /// Sets the entry format; default is `Google`.
    pub fn set_format(self, fmt: Format) -> (b: Builder)
        ensures
            b.fmt == fmt,
            b.filter == self.filter,
            b.dest == self.dest,
            b.color == self.color,
    {
        Builder { fmt, ..self }
    }

    /// Compiles and sets the level specification.
    pub fn set_spec(self, text: &str) -> (b: Builder)
        ensures
            b.filter matches Some(f) && f@ == specification::spec_compile(text.spec_bytes())
                && f.max_spec() == specification::spec_max_level(f@),
            b.fmt == self.fmt,
            b.dest == self.dest,
            b.color == self.color,
    {
        Builder { filter: Some(specification::Specification::new(text)), ..self }
    }

    /// Sets the log destination; default is standard error.
    pub fn set_destination(self, dest: Destination) -> (b: Builder)
        ensures
            b.dest == dest,
            b.filter == self.filter,
            b.fmt == self.fmt,
            b.color == self.color,
    {
        Builder { dest, ..self }
    }

    /// Sets the color mode; default is automatic.
    pub fn set_color(self, color: ColorMode) -> (b: Builder)
        ensures
            b.color == color,
            b.filter == self.filter,
            b.fmt == self.fmt,
            b.dest == self.dest,
    {
        Builder { color, ..self }
    }

    /// Builds the logger core. `is_tty` says whether the configured
    /// destination is a terminal, which only the caller can find out; it
    /// matters only when the color mode is `Auto`.
    pub fn build(self, is_tty: bool) -> (l: Logger)
        ensures
            l.fmt == self.fmt,
            l.dest == self.dest,
            l.use_color == spec_use_color(self.fmt, self.color, is_tty),
            self.filter matches Some(f) ==> l.filter == f,
            self.filter is None ==> l.filter@ == specification::spec_compile("".spec_bytes())
                && l.filter.max_spec() == specification::spec_max_level(l.filter@),
    {
        let use_color = if self.fmt == Format::GoogleSystemd || self.color == ColorMode::Never {
            false
        } else if self.color == ColorMode::Always {
            true
        } else {
            is_tty
        };
        let filter = match self.filter {
            Some(f) => f,
            None => specification::Specification::new(""),
        };
        Logger { filter, fmt: self.fmt, dest: self.dest, use_color }
    }
}

impl Default for Builder {
    /// The default configuration, as `Builder::new` gives it.
    fn default() -> (b: Builder)
        ensures
            b.filter is None,
            b.fmt == Format::Google,
            b.dest == Destination::Stderr,
            b.color == ColorMode::Auto,
    {
        Builder::new()
    }
}

/// The logger core: filters a call by the specification, renders it into a
/// bounded entry buffer, and leaves delivery — the lock, the waiting, and the
/// sink writes — to its caller.
pub struct Logger {
    /// Which targets log at what level.
    pub filter: specification::Specification,

    /// The entry format.
    pub fmt: Format,

    /// Where entries are delivered; the core never writes there itself.
    pub dest: Destination,

    /// Whether entries are colored.
    pub use_color: bool,
}

/// Whether a call at `level` for `target` passes the specification.
pub open spec fn spec_enabled(
    ds: Seq<(LevelFilter, Seq<u8>)>,
    target: Seq<u8>,
    level: Level,
) -> bool {
    level_rank(level) <= filter_rank(specification::spec_get_level(ds, target))
}

/// The complete entry rendered for one call: the format's pieces appended
/// into a fresh bounded buffer, then the newline terminator.
pub open spec fn spec_rendered(
    fmt: Format,
    use_color: bool,
    level: Level,
    time: Seq<u8>,
    thread: Seq<u8>,
    target: Seq<u8>,
    msg: Seq<u8>,
) -> Seq<u8> {
    entry_buf::append_all(
        Seq::<u8>::empty(),
        format_pieces(fmt, use_color, level, time, thread, target, msg),
    ).push(entry_buf::NEWLINE)
}

impl Logger {
    /// Whether a call at `level` for `target` would be emitted.
    pub fn enabled(&self, target: &str, level: Level) -> (b: bool)
        ensures
            b == spec_enabled(self.filter@, target.spec_bytes(), level),
    {
        self.filter.get_level(target).admits(level)
    }

    /// Renders one call into a fresh entry buffer and terminates it. The
    /// pieces are truncated through the buffer's append contract, so the
    /// result is at most `MAX_ENTRY_SIZE` bytes and always ends in a newline.
    pub fn render(&self, level: Level, time: &str, thread: &str, target: &str, msg: &str) -> (e:
        entry_buf::Entry)
        ensures
            e.wf(),
            e@ == spec_rendered(
                self.fmt,
                self.use_color,
                level,
                time.spec_bytes(),
                thread.spec_bytes(),
                target.spec_bytes(),
                msg.spec_bytes(),
            ),
    {
        let mut buf = entry_buf::EntryBuf::new();
        let _ = self.fmt.write(self.use_color, level, time, thread, target, msg, &mut buf);
        buf.terminate()
    }

    /// Filters and renders one call: `None` exactly when the specification
    /// rejects it, otherwise the complete entry.
    pub fn prepare(&self, level: Level, time: &str, thread: &str, target: &str, msg: &str) -> (r:
        Option<entry_buf::Entry>)
        ensures
            r is Some <==> spec_enabled(self.filter@, target.spec_bytes(), level),
            r matches Some(e) ==> e.wf() && e@ == spec_rendered(
                self.fmt,
                self.use_color,
                level,
                time.spec_bytes(),
                thread.spec_bytes(),
                target.spec_bytes(),
                msg.spec_bytes(),
            ),
    {
        if !self.enabled(target, level) {
            return None;
        }
        Some(self.render(level, time, thread, target, msg))
    }
}

/// Round trip at the entry level: when the format's pieces fit within the
/// reserved capacity, the rendered entry is exactly their concatenation plus
/// the newline terminator — nothing reordered, lost, or injected.
pub proof fn lemma_rendered_exact(
    fmt: Format,
    use_color: bool,
    level: Level,
    time: Seq<u8>,
    thread: Seq<u8>,
    target: Seq<u8>,
    msg: Seq<u8>,
)
    requires
        entry_buf::concat_all(
            format_pieces(fmt, use_color, level, time, thread, target, msg),
        ).len() <= MAX_ENTRY_SIZE - 1,
    ensures
        spec_rendered(fmt, use_color, level, time, thread, target, msg) == entry_buf::concat_all(
            format_pieces(fmt, use_color, level, time, thread, target, msg),
        ).push(entry_buf::NEWLINE),
{
    let ps = format_pieces(fmt, use_color, level, time, thread, target, msg);
    entry_buf::lemma_append_all_fits(Seq::<u8>::empty(), ps);
    assert(Seq::<u8>::empty() + entry_buf::concat_all(ps) =~= entry_buf::concat_all(ps));
}

/// Every rendered entry is bounded by the buffer capacity and ends in the
/// newline terminator.
pub proof fn lemma_rendered_terminated(
    fmt: Format,
    use_color: bool,
    level: Level,
    time: Seq<u8>,
    thread: Seq<u8>,
    target: Seq<u8>,
    msg: Seq<u8>,
)
    ensures
        1 <= spec_rendered(fmt, use_color, level, time, thread, target, msg).len()
            <= MAX_ENTRY_SIZE,
        spec_rendered(fmt, use_color, level, time, thread, target, msg).last()
            == entry_buf::NEWLINE,
{
    let ps = format_pieces(fmt, use_color, level, time, thread, target, msg);
    entry_buf::lemma_append_all_bounds(Seq::<u8>::empty(), ps);
}

} // verus!
