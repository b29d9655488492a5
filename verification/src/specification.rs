//! The level-filtering specification engine.
//!
//! A specification string is a comma-separated list of directives. A
//! directive is empty (ignored), a bare level name (a global rule), a bare
//! prefix (enables everything under it), or `prefix=level`. Compilation sorts
//! the surviving directives by descending prefix length, keeping the original
//! order among equal lengths, so that [`Specification::get_level`] finds the
//! most specific matching rule first.

use std::io::Write;
use vstd::prelude::*;

verus! {

use vstd::slice::{slice_subrange, slice_to_vec};
use vstd::string::StringSliceAdditionalSpecFns;
use crate::{filter_rank, LevelFilter};

/// The byte that separates directives.
pub const COMMA: u8 = 44;

/// The byte that separates a prefix from its level name.
pub const EQUALS: u8 = 61;

/// The index of the first occurrence of `c` in `s` at or after `from`, or
/// `s.len()` if there is none.
pub open spec fn spec_find(s: Seq<u8>, c: u8, from: int) -> int
    recommends
        0 <= from <= s.len(),
    decreases s.len() - from,
    when 0 <= from <= s.len()
{
    if from >= s.len() {
        from
    } else if s[from] == c {
        from
    } else {
        spec_find(s, c, from + 1)
    }
}

/// `spec_find` returns the first occurrence: knowing the bytes before `i`
/// differ from `c` and the byte at `i` (if any) is `c` pins it to `i`.
pub proof fn lemma_spec_find_is(s: Seq<u8>, c: u8, from: int, i: int)
    requires
        0 <= from <= i <= s.len(),
        forall|m: int| from <= m < i ==> s[m] != c,
        i < s.len() ==> s[i] == c,
    ensures
        spec_find(s, c, from) == i,
    decreases i - from,
{
    if from < i {
        lemma_spec_find_is(s, c, from + 1, i);
    }
}

/// The directive tokens of `s`: the (possibly empty) stretches between
/// occurrences of `c`.
pub open spec fn split_on(s: Seq<u8>, c: u8) -> Seq<Seq<u8>>
    decreases s.len(),
{
    let i = spec_find(s, c, 0);
    if i < 0 || i >= s.len() {
        seq![s]
    } else {
        seq![s.take(i)] + split_on(s.skip(i + 1), c)
    }
}

/// Maps an upper-case ASCII letter to its lower-case form and leaves every
/// other byte alone.
pub open spec fn lower_byte(b: u8) -> u8 {
    if 65 <= b <= 90 {
        (b + 32) as u8
    } else {
        b
    }
}

/// Byte-wise equality ignoring ASCII case.
pub open spec fn eq_ignore_ascii_case(a: Seq<u8>, b: Seq<u8>) -> bool {
    a.len() == b.len() && forall|i: int| 0 <= i < a.len() ==> lower_byte(a[i]) == lower_byte(b[i])
}

/// The level denoted by a level name, compared ignoring ASCII case; `None`
/// for anything that is not one of the six names.
pub open spec fn spec_parse_level(s: Seq<u8>) -> Option<LevelFilter> {
    if eq_ignore_ascii_case(s, "off".spec_bytes()) {
        Some(LevelFilter::Off)
    } else if eq_ignore_ascii_case(s, "error".spec_bytes()) {
        Some(LevelFilter::Error)
    } else if eq_ignore_ascii_case(s, "warn".spec_bytes()) {
        Some(LevelFilter::Warn)
    } else if eq_ignore_ascii_case(s, "info".spec_bytes()) {
        Some(LevelFilter::Info)
    } else if eq_ignore_ascii_case(s, "debug".spec_bytes()) {
        Some(LevelFilter::Debug)
    } else if eq_ignore_ascii_case(s, "trace".spec_bytes()) {
        Some(LevelFilter::Trace)
    } else {
        None
    }
}

/// The directive a token compiles to, if any. An empty token is ignored; a
/// bare level name is a global rule; a bare prefix enables everything under
/// it; `prefix=level` is an explicit rule, dropped when the level name does
/// not parse.
pub open spec fn spec_parse_token(t: Seq<u8>) -> Option<(LevelFilter, Seq<u8>)> {
    if t.len() == 0 {
        None
    } else {
        let e = spec_find(t, EQUALS, 0);
        if e >= t.len() {
            match spec_parse_level(t) {
                Some(l) => Some((l, Seq::<u8>::empty())),
                None => Some((LevelFilter::Trace, t)),
            }
        } else {
            match spec_parse_level(t.skip(e + 1)) {
                Some(l) => Some((l, t.take(e))),
                None => None,
            }
        }
    }
}

/// The directives of a token list, in token order.
pub open spec fn spec_parse_list(tokens: Seq<Seq<u8>>) -> Seq<(LevelFilter, Seq<u8>)>
    decreases tokens.len(),
{
    if tokens.len() == 0 {
        Seq::<(LevelFilter, Seq<u8>)>::empty()
    } else {
        let rest = spec_parse_list(tokens.drop_last());
        match spec_parse_token(tokens.last()) {
            Some(d) => rest.push(d),
            None => rest,
        }
    }
}

/// When no directive survives, a single catch-all `Error` rule takes over.
pub open spec fn with_default(ds: Seq<(LevelFilter, Seq<u8>)>) -> Seq<(LevelFilter, Seq<u8>)> {
    if ds.len() == 0 {
        seq![(LevelFilter::Error, Seq::<u8>::empty())]
    } else {
        ds
    }
}

/// Inserts a directive that arrived after all of `ds`: it goes after every
/// directive whose prefix is at least as long (keeping arrival order among
/// equal lengths) and before the first strictly shorter one.
pub open spec fn insert_directive(
    d: (LevelFilter, Seq<u8>),
    ds: Seq<(LevelFilter, Seq<u8>)>,
) -> Seq<(LevelFilter, Seq<u8>)>
    decreases ds.len(),
{
    if ds.len() == 0 {
        seq![d]
    } else if ds[0].1.len() >= d.1.len() {
        seq![ds[0]] + insert_directive(d, ds.drop_first())
    } else {
        seq![d] + ds
    }
}

/// Sorts directives by descending prefix length, stably: directives are
/// inserted in arrival order, each after those of equal prefix length.
pub open spec fn sort_directives(ds: Seq<(LevelFilter, Seq<u8>)>) -> Seq<(LevelFilter, Seq<u8>)>
    decreases ds.len(),
{
    if ds.len() == 0 {
        Seq::<(LevelFilter, Seq<u8>)>::empty()
    } else {
        insert_directive(ds.last(), sort_directives(ds.drop_last()))
    }
}

/// Descending order of prefix length.
pub open spec fn sorted_by_prefix_len(ds: Seq<(LevelFilter, Seq<u8>)>) -> bool {
    forall|i: int, j: int| 0 <= i < j < ds.len() ==> ds[i].1.len() >= ds[j].1.len()
}

/// The whole compilation pipeline: split on commas, compile each token, fall
/// back to the default rule, sort.
pub open spec fn spec_compile(s: Seq<u8>) -> Seq<(LevelFilter, Seq<u8>)> {
    sort_directives(with_default(spec_parse_list(split_on(s, COMMA))))
}

/// The most detailed level among the directives, `Off` when there are none.
pub open spec fn spec_max_level(ds: Seq<(LevelFilter, Seq<u8>)>) -> LevelFilter
    decreases ds.len(),
{
    if ds.len() == 0 {
        LevelFilter::Off
    } else {
        let rest = spec_max_level(ds.drop_last());
        if filter_rank(rest) >= filter_rank(ds.last().0) {
            rest
        } else {
            ds.last().0
        }
    }
}

/// The level of the first directive whose prefix starts `target`, `Off` when
/// none matches.
pub open spec fn spec_get_level(
    ds: Seq<(LevelFilter, Seq<u8>)>,
    target: Seq<u8>,
) -> LevelFilter
    decreases ds.len(),
{
    if ds.len() == 0 {
        LevelFilter::Off
    } else if ds[0].1.is_prefix_of(target) {
        ds[0].0
    } else {
        spec_get_level(ds.drop_first(), target)
    }
}

/// One compiled `(level, prefix)` rule.
struct Directive {
    level: LevelFilter,
    prefix: Vec<u8>,
}

impl View for Directive {
    type V = (LevelFilter, Seq<u8>);

    closed spec fn view(&self) -> (LevelFilter, Seq<u8>) {
        (self.level, self.prefix@)
    }
}

/// The views of a directive list.
spec fn dviews(s: Seq<Directive>) -> Seq<(LevelFilter, Seq<u8>)> {
    s.map_values(|d: Directive| d@)
}

/// A compiled logging specification: which targets log at what level.
pub struct Specification {
    /// The compiled rules, most specific prefixes first.
    directives: Vec<Directive>,

    /// The most detailed level any target can reach.
    pub max: LevelFilter,
}

impl View for Specification {
    type V = Seq<(LevelFilter, Seq<u8>)>;

    closed spec fn view(&self) -> Seq<(LevelFilter, Seq<u8>)> {
        dviews(self.directives@)
    }
}

/// Relies on `log::LevelFilter`'s `FromStr` implementation: it recognizes
/// exactly the six level names (`off`, `error`, `warn`, `info`, `debug`,
/// `trace`) compared ignoring ASCII case, and nothing else. The token is
/// decoded as UTF-8 first; a token equal (ignoring case) to one of the
/// all-ASCII names is itself ASCII, so an undecodable token matches none.
#[verifier::external_body]
fn parse_level_name(t: &[u8]) -> (r: Option<LevelFilter>)
    ensures
        r == spec_parse_level(t@),
{
    let parsed = core::str::from_utf8(t).ok().and_then(|s| s.parse::<log::LevelFilter>().ok());
    match parsed {
        Some(log::LevelFilter::Off) => Some(LevelFilter::Off),
        Some(log::LevelFilter::Error) => Some(LevelFilter::Error),
        Some(log::LevelFilter::Warn) => Some(LevelFilter::Warn),
        Some(log::LevelFilter::Info) => Some(LevelFilter::Info),
        Some(log::LevelFilter::Debug) => Some(LevelFilter::Debug),
        Some(log::LevelFilter::Trace) => Some(LevelFilter::Trace),
        None => None,
    }
}

/// Relies on `writeln!` to `std::io::stderr`: reports a directive whose level
/// name did not parse. The directive is discarded; compilation still
/// succeeds, so nothing is promised of this call.
#[verifier::external_body]
fn warn_unparseable(d: &[u8]) {
    let _ = writeln!(
        std::io::stderr(),
        "logging directive {:?} has unparseable log level",
        String::from_utf8_lossy(d),
    );
}

/// The index of the first occurrence of `c` in `s` at or after `from`, or the
/// length if there is none.
fn find_byte(s: &[u8], c: u8, from: usize) -> (r: usize)
    requires
        from <= s@.len(),
    ensures
        from <= r <= s@.len(),
        r < s@.len() ==> s@[r as int] == c,
        forall|m: int| from <= m < r ==> s@[m] != c,
{
    let mut i = from;
    while i < s.len()
        invariant
            from <= i <= s@.len(),
            forall|m: int| from <= m < i ==> s@[m] != c,
        decreases s@.len() - i,
    {
        if s[i] == c {
            return i;
        }
        i = i + 1;
    }
    i
}

/// Compiles one token and pushes the directive it yields, if any.
fn push_token(parsed: &mut Vec<Directive>, tok: &[u8])
    ensures
        dviews(final(parsed)@) == match spec_parse_token(tok@) {
            Some(d) => dviews(old(parsed)@).push(d),
            None => dviews(old(parsed)@),
        },
{
    let ghost before = dviews(parsed@);
    if tok.len() == 0 {
        return;
    }
    let e = find_byte(tok, EQUALS, 0);
    proof {
        lemma_spec_find_is(tok@, EQUALS, 0, e as int);
    }
    if e == tok.len() {
        match parse_level_name(tok) {
            Some(l) => parsed.push(Directive { level: l, prefix: Vec::new() }),
            None => parsed.push(Directive { level: LevelFilter::Trace, prefix: slice_to_vec(tok) }),
        }
    } else {
        let rhs = slice_subrange(tok, e + 1, tok.len());
        assert(rhs@ == tok@.skip(e + 1));
        match parse_level_name(rhs) {
            Some(l) => {
                let prefix = slice_to_vec(slice_subrange(tok, 0, e));
                assert(prefix@ == tok@.take(e as int));
                parsed.push(Directive { level: l, prefix });
            },
            None => {
                warn_unparseable(tok);
            },
        }
    }
    proof {
        match spec_parse_token(tok@) {
            Some(d) => {
                assert(dviews(parsed@) =~= before.push(d));
            },
            None => {
                assert(dviews(parsed@) =~= before);
            },
        }
    }
}

/// Inserts `d` into a list sorted by descending prefix length, after every
/// directive whose prefix is at least as long.
fn insert_sorted(v: &mut Vec<Directive>, d: Directive)
    ensures
        dviews(final(v)@) == insert_directive(d@, dviews(old(v)@)),
{
    let ghost ds = dviews(v@);
    let mut i: usize = 0;
    while i < v.len() && v[i].prefix.len() >= d.prefix.len()
        invariant
            0 <= i <= v@.len(),
            ds == dviews(v@),
            forall|j: int| 0 <= j < i ==> ds[j].1.len() >= d@.1.len(),
        decreases v@.len() - i,
    {
        i = i + 1;
    }
    v.insert(i, d);
    proof {
        lemma_insert_directive_at(d@, ds, i as int);
        assert(dviews(v@) =~= ds.take(i as int) + seq![d@] + ds.skip(i as int));
    }
}

/// Where `insert_directive` puts its directive: at the first position whose
/// prefix is strictly shorter.
proof fn lemma_insert_directive_at(
    d: (LevelFilter, Seq<u8>),
    ds: Seq<(LevelFilter, Seq<u8>)>,
    i: int,
)
    requires
        0 <= i <= ds.len(),
        forall|j: int| 0 <= j < i ==> ds[j].1.len() >= d.1.len(),
        i < ds.len() ==> ds[i].1.len() < d.1.len(),
    ensures
        insert_directive(d, ds) == ds.take(i) + seq![d] + ds.skip(i),
    decreases i,
{
    if i == 0 {
        if ds.len() == 0 {
            assert(insert_directive(d, ds) =~= ds.take(0) + seq![d] + ds.skip(0));
        } else {
            assert(insert_directive(d, ds) =~= ds.take(0) + seq![d] + ds.skip(0));
        }
    } else {
        lemma_insert_directive_at(d, ds.drop_first(), i - 1);
        assert(insert_directive(d, ds) == seq![ds[0]] + insert_directive(d, ds.drop_first()));
        assert(seq![ds[0]] + (ds.drop_first().take(i - 1) + seq![d] + ds.drop_first().skip(i - 1))
            =~= ds.take(i) + seq![d] + ds.skip(i));
    }
}

/// Inserting into a sorted list keeps it sorted, grows it by one, and leaves
/// at the front either the inserted directive or the old front.
proof fn lemma_insert_directive_sorted(d: (LevelFilter, Seq<u8>), ds: Seq<(LevelFilter, Seq<u8>)>)
    requires
        sorted_by_prefix_len(ds),
    ensures
        sorted_by_prefix_len(insert_directive(d, ds)),
        insert_directive(d, ds).len() == ds.len() + 1,
        insert_directive(d, ds)[0] == d || (ds.len() > 0 && insert_directive(d, ds)[0] == ds[0]),
    decreases ds.len(),
{
    if ds.len() == 0 {
    } else if ds[0].1.len() >= d.1.len() {
        assert(sorted_by_prefix_len(ds.drop_first()));
        lemma_insert_directive_sorted(d, ds.drop_first());
        let tail = insert_directive(d, ds.drop_first());
        let r = seq![ds[0]] + tail;
        assert forall|i: int, j: int| 0 <= i < j < r.len() implies r[i].1.len() >= r[j].1.len() by {
            if i == 0 {
                assert(tail[j - 1].1.len() <= tail[0].1.len());
            }
        }
    } else {
    }
}

/// The compiled rule set is never empty and is sorted by descending prefix
/// length, so the most specific prefixes are tested first and the catch-all
/// empty prefix, when present, is tested last.
pub proof fn lemma_compile_sorted(s: Seq<u8>)
    ensures
        spec_compile(s).len() > 0,
        sorted_by_prefix_len(spec_compile(s)),
{
    lemma_sort_directives_sorted(with_default(spec_parse_list(split_on(s, COMMA))));
}

/// The maximum level is tight: some directive carries it, and no directive
/// is more detailed, so it is exactly the level reachable by the most
/// verbose target.
pub proof fn lemma_max_level_reached(ds: Seq<(LevelFilter, Seq<u8>)>)
    requires
        ds.len() > 0,
    ensures
        exists|i: int| 0 <= i < ds.len() && #[trigger] ds[i].0 == spec_max_level(ds),
        forall|i: int|
            0 <= i < ds.len() ==> filter_rank(#[trigger] ds[i].0) <= filter_rank(
                spec_max_level(ds),
            ),
    decreases ds.len(),
{
    let m = spec_max_level(ds);
    let rest = ds.drop_last();
    if ds.len() == 1 {
        assert(rest.len() == 0);
        assert(ds[0] == ds.last());
        assert(ds[0].0 == m);
    } else {
        lemma_max_level_reached(rest);
        let mr = spec_max_level(rest);
        if filter_rank(mr) >= filter_rank(ds.last().0) {
            let i0 = choose|i: int| 0 <= i < rest.len() && #[trigger] rest[i].0 == mr;
            assert(ds[i0] == rest[i0]);
            assert(ds[i0].0 == m);
        } else {
            assert(ds[ds.len() - 1].0 == m);
        }
        assert forall|i: int| 0 <= i < ds.len() implies filter_rank(#[trigger] ds[i].0)
            <= filter_rank(m) by {
            if i < ds.len() - 1 {
                assert(rest[i] == ds[i]);
            }
        }
    }
}

/// Longest-prefix match: in a rule set sorted by descending prefix length,
/// the answering directive is a matching one whose prefix is at least as
/// long as that of every other matching directive.
pub proof fn lemma_get_level_longest_match(ds: Seq<(LevelFilter, Seq<u8>)>, target: Seq<u8>)
    requires
        sorted_by_prefix_len(ds),
        exists|j: int| 0 <= j < ds.len() && ds[j].1.is_prefix_of(target),
    ensures
        exists|i: int|
            0 <= i < ds.len() && #[trigger] ds[i].1.is_prefix_of(target) && ds[i].0
                == spec_get_level(ds, target) && (forall|j: int|
                0 <= j < ds.len() && #[trigger] ds[j].1.is_prefix_of(target) ==> ds[j].1.len()
                    <= ds[i].1.len()),
    decreases ds.len(),
{
    let j0 = choose|j: int| 0 <= j < ds.len() && ds[j].1.is_prefix_of(target);
    if ds[0].1.is_prefix_of(target) {
        assert(ds[0].1.is_prefix_of(target) && ds[0].0 == spec_get_level(ds, target) && (
        forall|j: int|
            0 <= j < ds.len() && #[trigger] ds[j].1.is_prefix_of(target) ==> ds[j].1.len()
                <= ds[0].1.len()));
    } else {
        let rest = ds.drop_first();
        assert(rest[j0 - 1] == ds[j0]);
        assert(sorted_by_prefix_len(rest)) by {
            assert forall|i: int, j: int| 0 <= i < j < rest.len() implies rest[i].1.len()
                >= rest[j].1.len() by {
                assert(rest[i] == ds[i + 1]);
                assert(rest[j] == ds[j + 1]);
            }
        }
        lemma_get_level_longest_match(rest, target);
        let i1 = choose|i: int|
            0 <= i < rest.len() && #[trigger] rest[i].1.is_prefix_of(target) && rest[i].0
                == spec_get_level(rest, target) && (forall|j: int|
                0 <= j < rest.len() && #[trigger] rest[j].1.is_prefix_of(target) ==> rest[j].1.len()
                    <= rest[i].1.len());
        assert(ds[i1 + 1] == rest[i1]);
        assert(spec_get_level(ds, target) == spec_get_level(rest, target));
        assert(ds[i1 + 1].1.is_prefix_of(target) && ds[i1 + 1].0 == spec_get_level(ds, target)
            && (forall|j: int|
            0 <= j < ds.len() && #[trigger] ds[j].1.is_prefix_of(target) ==> ds[j].1.len() <= ds[i1
                + 1].1.len())) by {
            assert forall|j: int|
                0 <= j < ds.len() && #[trigger] ds[j].1.is_prefix_of(target) implies ds[j].1.len()
                <= ds[i1 + 1].1.len() by {
                assert(j != 0);
                assert(rest[j - 1] == ds[j]);
            }
        }
    }
}

/// Sorting yields a sorted list of the same length.
proof fn lemma_sort_directives_sorted(ds: Seq<(LevelFilter, Seq<u8>)>)
    ensures
        sorted_by_prefix_len(sort_directives(ds)),
        sort_directives(ds).len() == ds.len(),
    decreases ds.len(),
{
    if ds.len() > 0 {
        lemma_sort_directives_sorted(ds.drop_last());
        lemma_insert_directive_sorted(ds.last(), sort_directives(ds.drop_last()));
    }
}

impl Specification {
    /// The `max` field as seen by contracts.
    pub closed spec fn max_spec(&self) -> LevelFilter {
        self.max
    }

    /// Compiles a specification string into the ordered rule set and the most
    /// detailed reachable level.
    pub fn new(text: &str) -> (s: Specification)
        ensures
            s@ == spec_compile(text.spec_bytes()),
            s.max_spec() == spec_max_level(s@),
    {
        let bytes = text.as_bytes();
        let n = bytes.len();
        let ghost full = text.spec_bytes();
        let ghost toks = split_on(full, COMMA);
        let mut parsed: Vec<Directive> = Vec::new();
        let mut start: usize = 0;
        let ghost mut k: int = 0;
        proof {
            assert(full.skip(0) =~= full);
            assert(toks.skip(0) =~= toks);
            assert(dviews(parsed@) =~= spec_parse_list(toks.take(0)));
        }
        loop
            invariant_except_break
                bytes@ == full,
                n == full.len(),
                0 <= start <= n,
                0 <= k <= toks.len(),
                toks == split_on(full, COMMA),
                toks.skip(k) == split_on(full.skip(start as int), COMMA),
                dviews(parsed@) == spec_parse_list(toks.take(k)),
            ensures
                dviews(parsed@) == spec_parse_list(toks),
            decreases n - start,
        {
            let end = find_byte(bytes, COMMA, start);
            let ghost suffix = full.skip(start as int);
            proof {
                assert forall|m: int| 0 <= m < end - start implies suffix[m] != COMMA by {
                    assert(suffix[m] == full[start + m]);
                }
                if end < n {
                    assert(suffix[end - start] == full[end as int]);
                }
                lemma_spec_find_is(suffix, COMMA, 0, end - start);
            }
            let tok = slice_subrange(bytes, start, end);
            proof {
                assert(tok@ =~= suffix.take(end - start));
                if end < n {
                    assert(split_on(suffix, COMMA) == seq![suffix.take(end - start)] + split_on(
                        suffix.skip(end - start + 1),
                        COMMA,
                    ));
                    assert(toks.skip(k).len() >= 1);
                    assert(k < toks.len());
                    assert(toks.skip(k)[0] == toks[k]);
                    assert(toks.skip(k)[0] == suffix.take(end - start));
                    assert(toks[k] == tok@);
                    assert(toks.skip(k + 1) =~= split_on(suffix, COMMA).skip(1));
                    assert(suffix.skip(end - start + 1) =~= full.skip(end + 1));
                } else {
                    assert(split_on(suffix, COMMA) == seq![suffix]);
                    assert(tok@ =~= suffix);
                    assert(toks.skip(k)[0] == toks[k]);
                    assert(toks[k] == tok@);
                    assert(toks.skip(k).len() == 1);
                }
            }
            push_token(&mut parsed, tok);
            proof {
                assert(toks.take(k + 1).drop_last() =~= toks.take(k));
                assert(toks.take(k + 1).last() == toks[k]);
                k = k + 1;
            }
            if end == n {
                proof {
                    assert(toks.take(k) =~= toks);
                }
                break;
            }
            start = end + 1;
        }
        if parsed.len() == 0 {
            parsed.push(Directive { level: LevelFilter::Error, prefix: Vec::new() });
            proof {
                assert(dviews(parsed@) =~= with_default(spec_parse_list(toks)));
            }
        }
        let ghost defaulted = with_default(spec_parse_list(toks));
        let mut directives: Vec<Directive> = Vec::new();
        let ghost mut j: int = 0;
        while parsed.len() > 0
            invariant
                0 <= j <= defaulted.len(),
                dviews(parsed@) == defaulted.skip(j),
                dviews(directives@) == sort_directives(defaulted.take(j)),
            decreases parsed@.len(),
        {
            let ghost remaining = dviews(parsed@);
            let ghost before = parsed@;
            let d = parsed.remove(0);
            proof {
                assert(remaining.len() == before.len());
                assert(defaulted.skip(j).len() == defaulted.len() - j);
                assert(j < defaulted.len());
                assert(remaining[0] == before[0]@);
                assert(defaulted.skip(j)[0] == defaulted[j]);
                assert(d@ == defaulted[j]);
                assert(parsed@ == before.remove(0));
                assert(dviews(parsed@) =~= remaining.skip(1));
                assert(remaining.skip(1) =~= defaulted.skip(j + 1));
            }
            insert_sorted(&mut directives, d);
            proof {
                assert(defaulted.take(j + 1).drop_last() =~= defaulted.take(j));
                assert(defaulted.take(j + 1).last() == defaulted[j]);
                j = j + 1;
            }
        }
        proof {
            assert(defaulted.take(j) =~= defaulted);
        }
        let ghost sorted = sort_directives(defaulted);
        let mut max = LevelFilter::Off;
        let mut i: usize = 0;
        while i < directives.len()
            invariant
                0 <= i <= directives@.len(),
                dviews(directives@) == sorted,
                max == spec_max_level(sorted.take(i as int)),
            decreases directives@.len() - i,
        {
            let l = directives[i].level;
            proof {
                assert(sorted[i as int] == dviews(directives@)[i as int]);
                assert(sorted.take(i + 1).drop_last() =~= sorted.take(i as int));
                assert(sorted.take(i + 1).last() == sorted[i as int]);
            }
            max = max.most_detailed(l);
            i = i + 1;
        }
        proof {
            assert(sorted.take(directives@.len() as int) =~= sorted);
        }
        Specification { directives, max }
    }

    /// The effective level for `target`: that of the first directive whose
    /// prefix starts `target`. The rules are sorted most specific first, so
    /// this is the longest matching prefix; the empty catch-all prefix, when
    /// present, is reached last.
    pub fn get_level(&self, target: &str) -> (r: LevelFilter)
        ensures
            r == spec_get_level(self@, target.spec_bytes()),
    {
        let t = target.as_bytes();
        let ghost ds = self@;
        proof {
            assert(ds.skip(0) =~= ds);
        }
        let mut i: usize = 0;
        while i < self.directives.len()
            invariant
                0 <= i <= self.directives@.len(),
                ds == dviews(self.directives@),
                t@ == target.spec_bytes(),
                spec_get_level(ds, t@) == spec_get_level(ds.skip(i as int), t@),
            decreases self.directives@.len() - i,
        {
            proof {
                assert(ds.skip(i as int)[0] == ds[i as int]);
                assert(ds.skip(i as int).drop_first() =~= ds.skip(i + 1));
            }
            if bytes_is_prefix(self.directives[i].prefix.as_slice(), t) {
                return self.directives[i].level;
            }
            i = i + 1;
        }
        proof {
            assert(ds.skip(self.directives@.len() as int) =~= Seq::<(LevelFilter, Seq<u8>)>::empty());
        }
        LevelFilter::Off
    }
}

/// Whether `p` is a prefix of `t`, byte for byte.
fn bytes_is_prefix(p: &[u8], t: &[u8]) -> (r: bool)
    ensures
        r == p@.is_prefix_of(t@),
{
    if p.len() > t.len() {
        return false;
    }
    let mut i: usize = 0;
    while i < p.len()
        invariant
            0 <= i <= p@.len() <= t@.len(),
            forall|j: int| 0 <= j < i ==> p@[j] == t@[j],
        decreases p@.len() - i,
    {
        if p[i] != t[i] {
            assert(!p@.is_prefix_of(t@));
            return false;
        }
        i = i + 1;
    }
    proof {
        assert(p@ =~= t@.take(p@.len() as int));
    }
    true
}

} // verus!
