//! Command-line arguments of user programs and their help text.
use vstd::prelude::*;
use vstd::string::StringSliceAdditionalSpecFns;
use crate::text::{chars_of, string_from_range, string_from_chars, owned, push_all, str_eq};

verus! {

broadcast use vstd::string::group_string_axioms;

/// What a parse yields, as character sequences: the positional arguments,
/// the flags (long names and single short letters), and the `--key value`
/// pairs, each in the order they were given.
pub struct ArgsView {
    pub positionals: Seq<Seq<char>>,
    pub flags: Seq<Seq<char>>,
    pub values: Seq<(Seq<char>, Seq<char>)>,
}

/// `t` starts with `--`.
pub open spec fn is_long_option(t: Seq<char>) -> bool {
    t.len() >= 2 && t[0] == '-' && t[1] == '-'
}

/// `t` starts with `-` and has more after it (a cluster of short flags).
pub open spec fn is_short_cluster(t: Seq<char>) -> bool {
    t.len() > 1 && t[0] == '-'
}

/// `t` starts with `-`.
pub open spec fn starts_with_dash(t: Seq<char>) -> bool {
    t.len() > 0 && t[0] == '-'
}

/// Each character of `cs` as a one-character flag name.
pub open spec fn single_letters(cs: Seq<char>) -> Seq<Seq<char>> {
    cs.map(|_i: int, c: char| seq![c])
}

/// The result of parsing `toks[i..]` onto what was parsed before.
///
/// A `--name` token takes the next token as its value unless that token is
/// missing or starts with `-`, in which case `name` is a flag; a token `-abc`
/// sets the flags `a`, `b` and `c`; every other token is positional.
pub open spec fn parse_from(toks: Seq<Seq<char>>, i: int, acc: ArgsView) -> ArgsView
    decreases toks.len() - i,
{
    if i < 0 || i >= toks.len() {
        acc
    } else {
        let t = toks[i];
        if is_long_option(t) {
            let name = t.skip(2);
            if i + 1 < toks.len() && !starts_with_dash(toks[i + 1]) {
                parse_from(toks, i + 2, ArgsView { values: acc.values.push((name, toks[i + 1])), ..acc })
            } else {
                parse_from(toks, i + 1, ArgsView { flags: acc.flags.push(name), ..acc })
            }
        } else if is_short_cluster(t) {
            parse_from(toks, i + 1, ArgsView { flags: acc.flags + single_letters(t.skip(1)), ..acc })
        } else {
            parse_from(toks, i + 1, ArgsView { positionals: acc.positionals.push(t), ..acc })
        }
    }
}

/// The parse of a whole argument vector; the first entry is the program's
/// own name and is skipped.
pub open spec fn parse_spec(argv: Seq<Seq<char>>) -> ArgsView {
    parse_from(argv, 1, ArgsView { positionals: Seq::empty(), flags: Seq::empty(), values: Seq::empty() })
}

/// The characters of each token of an argument vector.
pub open spec fn tokens(argv: Seq<&str>) -> Seq<Seq<char>> {
    argv.map(|_i: int, t: &str| t@)
}

pub open spec fn strings_view(v: Seq<String>) -> Seq<Seq<char>> {
    v.map(|_i: int, s: String| s@)
}

pub open spec fn pairs_view(v: Seq<(String, String)>) -> Seq<(Seq<char>, Seq<char>)> {
    v.map(|_i: int, p: (String, String)| (p.0@, p.1@))
}

/// Parsed command-line arguments.
pub struct Args {
    positionals: Vec<String>,
    flags: Vec<String>,
    values: Vec<(String, String)>,
}

impl View for Args {
    type V = ArgsView;

    closed spec fn view(&self) -> ArgsView {
        ArgsView {
            positionals: strings_view(self.positionals@),
            flags: strings_view(self.flags@),
            values: pairs_view(self.values@),
        }
    }
}

impl Args {
    /// Parses an argument vector (see [`parse_from`]).
    pub fn parse(argv: &[&str]) -> (r: Args)
        ensures
            r@ == parse_spec(tokens(argv@)),
    {
        let ghost toks = tokens(argv@);
        let mut positionals: Vec<String> = Vec::new();
        let mut flags: Vec<String> = Vec::new();
        let mut values: Vec<(String, String)> = Vec::new();
        let mut i: usize = 1;
        assert(strings_view(positionals@) =~= Seq::empty());
        assert(strings_view(flags@) =~= Seq::empty());
        assert(pairs_view(values@) =~= Seq::empty());
        while i < argv.len()
            invariant
                toks == tokens(argv@),
                1 <= i,
                parse_from(toks, i as int, ArgsView {
                    positionals: strings_view(positionals@),
                    flags: strings_view(flags@),
                    values: pairs_view(values@),
                }) == parse_spec(toks),
            decreases argv.len() - i,
        {
            let ghost acc = ArgsView {
                positionals: strings_view(positionals@),
                flags: strings_view(flags@),
                values: pairs_view(values@),
            };
            let token: &str = argv[i];
            let t = chars_of(token);
            assert(t@ == toks[i as int]);
            if t.len() >= 2 && t[0] == '-' && t[1] == '-' {
                let name = string_from_range(&t, 2, t.len());
                assert(t@.subrange(2, t@.len() as int) == t@.skip(2));
                if i + 1 < argv.len() {
                    let next = chars_of(argv[i + 1]);
                    assert(next@ == toks[i + 1]);
                    if !(next.len() > 0 && next[0] == '-') {
                        let v = string_from_chars(&next);
                        values.push((name, v));
                        assert(pairs_view(values@) =~= acc.values.push((t@.skip(2), toks[i + 1])));
                        i = i + 2;
                    } else {
                        flags.push(name);
                        assert(strings_view(flags@) =~= acc.flags.push(t@.skip(2)));
                        i = i + 1;
                    }
                } else {
                    flags.push(name);
                    assert(strings_view(flags@) =~= acc.flags.push(t@.skip(2)));
                    i = i + 1;
                }
            } else if t.len() > 1 && t[0] == '-' {
                let mut j: usize = 1;
                while j < t.len()
                    invariant
                        1 <= j <= t.len(),
                        strings_view(flags@) == acc.flags + single_letters(t@.subrange(1, j as int)),
                    decreases t.len() - j,
                {
                    let one = string_from_range(&t, j, j + 1);
                    assert(one@ =~= seq![t@[j as int]]);
                    let ghost before = flags@;
                    flags.push(one);
                    assert(single_letters(t@.subrange(1, j + 1)) =~= single_letters(t@.subrange(1, j as int)).push(seq![t@[j as int]]));
                    assert(strings_view(flags@) =~= strings_view(before).push(one@));
                    j = j + 1;
                }
                assert(t@.subrange(1, t@.len() as int) == t@.skip(1));
                i = i + 1;
            } else {
                let p = string_from_chars(&t);
                positionals.push(p);
                assert(strings_view(positionals@) =~= acc.positionals.push(t@));
                i = i + 1;
            }
        }
        Args { positionals, flags, values }
    }

    /// Whether a flag was given, by its short letter or long name.
    pub fn flag(&self, name: &str) -> (r: bool)
        ensures
            r == self@.flags.contains(name@),
    {
        let mut i: usize = 0;
        while i < self.flags.len()
            invariant
                i <= self.flags.len(),
                forall|j: int| 0 <= j < i ==> self.flags@[j]@ != name@,
            decreases self.flags.len() - i,
        {
            if str_eq(self.flags[i].as_str(), name) {
                assert(self@.flags[i as int] == name@);
                return true;
            }
            i = i + 1;
        }
        assert(!self@.flags.contains(name@)) by {
            if self@.flags.contains(name@) {
                let k = choose|k: int| 0 <= k < self@.flags.len() && self@.flags[k] == name@;
                assert(self.flags@[k]@ == name@);
            }
        }
        false
    }

    /// The value of the first `--name value` pair with this name.
    pub fn value(&self, name: &str) -> (r: Option<&str>)
        ensures
            match r {
                Some(v) => exists|k: int|
                    0 <= k < self@.values.len() && self@.values[k].0 == name@ && self@.values[k].1 == v@
                        && forall|j: int| 0 <= j < k ==> self@.values[j].0 != name@,
                None => forall|k: int| 0 <= k < self@.values.len() ==> self@.values[k].0 != name@,
            },
    {
        let mut i: usize = 0;
        while i < self.values.len()
            invariant
                i <= self.values.len(),
                forall|j: int| 0 <= j < i ==> self@.values[j].0 != name@,
            decreases self.values.len() - i,
        {
            if str_eq(self.values[i].0.as_str(), name) {
                let v: &str = self.values[i].1.as_str();
                assert(self@.values[i as int].1 == v@);
                return Some(v);
            }
            assert(self@.values[i as int].0 == self.values@[i as int].0@);
            i = i + 1;
        }
        None
    }

    /// The positional arguments.
    pub fn positionals(&self) -> (r: &[String])
        ensures
            strings_view(r@) == self@.positionals,
    {
        self.positionals.as_slice()
    }

    /// The positional argument at `index`, or `default` when there is none.
    pub fn positional(&self, index: usize, default: &str) -> (r: String)
        ensures
            r@ == if index < self@.positionals.len() { self@.positionals[index as int] } else { default@ },
    {
        if index < self.positionals.len() {
            self.positionals[index].clone()
        } else {
            owned(default)
        }
    }
}

/// One documented option: its short letter, long name and description.
pub type HelpEntry = (&'static str, &'static str, &'static str);

/// Byte width of the label `  -s, --long` of an entry.
pub open spec fn entry_width(e: HelpEntry) -> int {
    (7 + e.0.spec_bytes().len() + e.1.spec_bytes().len()) as int
}

/// The widest label, counting the built-in `  -h, --help` (12 bytes).
pub open spec fn max_width(es: Seq<HelpEntry>) -> int
    decreases es.len(),
{
    if es.len() == 0 {
        12
    } else {
        let m = max_width(es.drop_last());
        let w = entry_width(es.last());
        if w > m { w } else { m }
    }
}

/// The column at which descriptions start: two bytes past the widest label.
pub open spec fn help_column(es: Seq<HelpEntry>) -> int {
    max_width(es) + 2
}

/// `n` spaces.
pub open spec fn spaces(n: int) -> Seq<char> {
    Seq::new(n as nat, |_i: int| ' ')
}

/// The line describing one option, padded to the description column.
pub open spec fn entry_line(e: HelpEntry, col: int) -> Seq<char> {
    "  -"@ + e.0@ + ", --"@ + e.1@ + spaces(col - entry_width(e)) + e.2@ + "\n"@
}

/// The lines of all options, in the order they were added.
pub open spec fn entries_text(es: Seq<HelpEntry>, col: int) -> Seq<char>
    decreases es.len(),
{
    if es.len() == 0 {
        Seq::empty()
    } else {
        entries_text(es.drop_last(), col) + entry_line(es.last(), col)
    }
}

/// The whole help text of a program.
pub open spec fn help_text(name: &str, about: &str, es: Seq<HelpEntry>) -> Seq<char> {
    let col = help_column(es);
    "usage: "@ + name@ + " [OPTIONS] [ARGS]\n"@ + about@ + "\n"@ + "\n"@ + "options:\n"@
        + "  -h, --help"@ + spaces(col - 12) + "print this help message\n"@
        + entries_text(es, col)
}

/// The help text of a program: its name, what it does, and its options.
pub struct Help {
    name: &'static str,
    about: &'static str,
    entries: Vec<HelpEntry>,
}

impl Help {
    pub closed spec fn name(&self) -> &'static str {
        self.name
    }

    pub closed spec fn about(&self) -> &'static str {
        self.about
    }

    pub closed spec fn entries(&self) -> Seq<HelpEntry> {
        self.entries@
    }

    /// A help text with no options documented yet.
    pub fn new(name: &'static str, about: &'static str) -> (r: Help)
        ensures
            r.name() == name,
            r.about() == about,
            r.entries() == Seq::<HelpEntry>::empty(),
    {
        Help { name, about, entries: Vec::new() }
    }

    /// Documents one more option.
    pub fn flag(self, short: &'static str, long: &'static str, help: &'static str) -> (r: Help)
        ensures
            r.name() == self.name(),
            r.about() == self.about(),
            r.entries() == self.entries().push((short, long, help)),
    {
        let mut h = self;
        h.entries.push((short, long, help));
        h
    }

    /// Writes the help text to `out`.
    pub fn print(&self, out: &mut String)
        requires
            forall|i: int| 0 <= i < self.entries().len() ==> entry_width(#[trigger] self.entries()[i]) + 2 <= usize::MAX,
        ensures
            final(out)@ == old(out)@ + help_text(self.name(), self.about(), self.entries()),
    {
        let ghost es = self.entries@;
        assert forall|k: int| 0 <= k < es.len() implies entry_width(#[trigger] es[k]) + 2 <= usize::MAX by {
            assert(self.entries()[k] == es[k]);
        }
        let mut col_width: usize = 12;
        let mut i: usize = 0;
        while i < self.entries.len()
            invariant
                es == self.entries@,
                i <= es.len(),
                col_width == max_width(es.take(i as int)),
                forall|k: int| 0 <= k < es.len() ==> entry_width(#[trigger] es[k]) + 2 <= usize::MAX,
            decreases es.len() - i,
        {
            assert(es.take(i + 1).drop_last() == es.take(i as int));
            let e = self.entries[i];
            let w: usize = 7 + e.0.len() + e.1.len();
            if w > col_width {
                col_width = w;
            }
            i = i + 1;
        }
        assert(es.take(es.len() as int) == es);
        proof { lemma_max_width_bounds(es); }
        col_width = col_width + 2;
        let ghost col = col_width as int;
        push_all(out, "usage: ");
        push_all(out, self.name);
        push_all(out, " [OPTIONS] [ARGS]\n");
        push_all(out, self.about);
        push_all(out, "\n");
        push_all(out, "\n");
        push_all(out, "options:\n");
        push_all(out, "  -h, --help");
        push_spaces(out, col_width - 12);
        push_all(out, "print this help message\n");
        let ghost head = out@;
        let mut j: usize = 0;
        while j < self.entries.len()
            invariant
                es == self.entries@,
                j <= es.len(),
                col == help_column(es),
                col_width == col,
                out@ == head + entries_text(es.take(j as int), col),
                forall|k: int| 0 <= k < es.len() ==> entry_width(#[trigger] es[k]) + 2 <= col,
            decreases es.len() - j,
        {
            assert(es.take(j + 1).drop_last() == es.take(j as int));
            let e = self.entries[j];
            let ghost before = out@;
            push_all(out, "  -");
            push_all(out, e.0);
            push_all(out, ", --");
            push_all(out, e.1);
            let w: usize = 7 + e.0.len() + e.1.len();
            push_spaces(out, col_width - w);
            push_all(out, e.2);
            push_all(out, "\n");
            assert(out@ =~= before + entry_line(e, col));
            j = j + 1;
        }
        assert(es.take(es.len() as int) == es);
    }
}

/// The widest label is at least the built-in one and at least each entry's.
pub proof fn lemma_max_width_bounds(es: Seq<HelpEntry>)
    ensures
        max_width(es) >= 12,
        forall|k: int| 0 <= k < es.len() ==> entry_width(#[trigger] es[k]) <= max_width(es),
        max_width(es) == 12 || exists|k: int| 0 <= k < es.len() && max_width(es) == entry_width(#[trigger] es[k]),
    decreases es.len(),
{
    if es.len() > 0 {
        lemma_max_width_bounds(es.drop_last());
        assert forall|k: int| 0 <= k < es.len() implies entry_width(#[trigger] es[k]) <= max_width(es) by {
            if k < es.len() - 1 {
                assert(es.drop_last()[k] == es[k]);
            }
        }
        if max_width(es) != 12 {
            if max_width(es) == entry_width(es.last()) {
                assert(max_width(es) == entry_width(es[es.len() - 1]));
            } else {
                let k = choose|k: int| 0 <= k < es.drop_last().len() && max_width(es.drop_last()) == entry_width(#[trigger] es.drop_last()[k]);
                assert(es.drop_last()[k] == es[k]);
            }
        }
    }
}

/// Appends `n` spaces.
fn push_spaces(out: &mut String, n: usize)
    ensures
        final(out)@ == old(out)@ + spaces(n as int),
{
    let mut k: usize = 0;
    while k < n
        invariant
            k <= n,
            out@ == old(out)@ + spaces(k as int),
        decreases n - k,
    {
        out.push(' ');
        assert(spaces(k + 1) =~= spaces(k as int).push(' '));
        k = k + 1;
    }
}

proof fn lemma_parse_from_reads_on(a: Seq<Seq<char>>, b: Seq<Seq<char>>, i: int, acc: ArgsView)
    requires
        a.len() == b.len(),
        0 <= i,
        forall|j: int| i <= j < a.len() ==> a[j] == b[j],
    ensures
        parse_from(a, i, acc) == parse_from(b, i, acc),
    decreases a.len() - i,
{
    if i < a.len() {
        assert(a[i] == b[i]);
        if i + 1 < a.len() {
            assert(a[i + 1] == b[i + 1]);
        }
        let t = a[i];
        if is_long_option(t) {
            let name = t.skip(2);
            if i + 1 < a.len() && !starts_with_dash(a[i + 1]) {
                lemma_parse_from_reads_on(a, b, i + 2, ArgsView { values: acc.values.push((name, a[i + 1])), ..acc });
            } else {
                lemma_parse_from_reads_on(a, b, i + 1, ArgsView { flags: acc.flags.push(name), ..acc });
            }
        } else if is_short_cluster(t) {
            lemma_parse_from_reads_on(a, b, i + 1, ArgsView { flags: acc.flags + single_letters(t.skip(1)), ..acc });
        } else {
            lemma_parse_from_reads_on(a, b, i + 1, ArgsView { positionals: acc.positionals.push(t), ..acc });
        }
    }
}

/// The first entry of an argument vector (the program's name) is never a
/// flag, a value or a positional argument, and never takes the next entry
/// as its value: vectors that differ only there parse alike. An empty
/// vector parses to nothing.
pub proof fn law_parse_ignores_program_name(x: Seq<char>, y: Seq<char>, rest: Seq<Seq<char>>)
    ensures
        parse_spec(seq![x] + rest) == parse_spec(seq![y] + rest),
        parse_spec(Seq::empty()) == (ArgsView { positionals: Seq::empty(), flags: Seq::empty(), values: Seq::empty() }),
{
    let a = seq![x] + rest;
    let b = seq![y] + rest;
    assert forall|j: int| 1 <= j < a.len() implies a[j] == b[j] by {
        assert(a[j] == rest[j - 1]);
        assert(b[j] == rest[j - 1]);
    }
    lemma_parse_from_reads_on(a, b, 1, ArgsView { positionals: Seq::empty(), flags: Seq::empty(), values: Seq::empty() });
}

proof fn lemma_plain_tokens(toks: Seq<Seq<char>>, i: int, acc: ArgsView)
    requires
        0 <= i <= toks.len(),
        forall|j: int| i <= j < toks.len() ==> !starts_with_dash(#[trigger] toks[j]),
    ensures
        parse_from(toks, i, acc) == (ArgsView { positionals: acc.positionals + toks.skip(i), ..acc }),
    decreases toks.len() - i,
{
    if i < toks.len() {
        let t = toks[i];
        assert(!starts_with_dash(t));
        let next = ArgsView { positionals: acc.positionals.push(t), ..acc };
        lemma_plain_tokens(toks, i + 1, next);
        assert(acc.positionals.push(t) + toks.skip(i + 1) =~= acc.positionals + toks.skip(i));
    } else {
        assert(acc.positionals + toks.skip(i) =~= acc.positionals);
    }
}

/// Arguments that do not start with `-` are positional, kept in the order
/// given: `prog t1 .. tn` parses to the positionals `t1 .. tn` and no
/// flags or values.
pub proof fn law_positionals_in_order(argv: Seq<Seq<char>>)
    requires
        argv.len() > 0,
        forall|j: int| 1 <= j < argv.len() ==> !starts_with_dash(#[trigger] argv[j]),
    ensures
        parse_spec(argv).positionals == argv.skip(1),
        parse_spec(argv).flags == Seq::<Seq<char>>::empty(),
        parse_spec(argv).values == Seq::<(Seq<char>, Seq<char>)>::empty(),
{
    let acc = ArgsView { positionals: Seq::empty(), flags: Seq::empty(), values: Seq::empty() };
    lemma_plain_tokens(argv, 1, acc);
    assert(Seq::<Seq<char>>::empty() + argv.skip(1) =~= argv.skip(1));
}

/// Parsing only ever appends: whatever was collected before a token stays
/// in front of what the rest of the vector adds, so positionals, flags and
/// values come out in the order they were given.
pub proof fn law_parse_appends(toks: Seq<Seq<char>>, i: int, acc: ArgsView)
    ensures
        parse_from(toks, i, acc).positionals.take(acc.positionals.len() as int) == acc.positionals,
        parse_from(toks, i, acc).flags.take(acc.flags.len() as int) == acc.flags,
        parse_from(toks, i, acc).values.take(acc.values.len() as int) == acc.values,
        parse_from(toks, i, acc).positionals.len() >= acc.positionals.len(),
        parse_from(toks, i, acc).flags.len() >= acc.flags.len(),
        parse_from(toks, i, acc).values.len() >= acc.values.len(),
    decreases toks.len() - i,
{
    if 0 <= i < toks.len() {
        let t = toks[i];
        let next = if is_long_option(t) {
            let name = t.skip(2);
            if i + 1 < toks.len() && !starts_with_dash(toks[i + 1]) {
                ArgsView { values: acc.values.push((name, toks[i + 1])), ..acc }
            } else {
                ArgsView { flags: acc.flags.push(name), ..acc }
            }
        } else if is_short_cluster(t) {
            ArgsView { flags: acc.flags + single_letters(t.skip(1)), ..acc }
        } else {
            ArgsView { positionals: acc.positionals.push(t), ..acc }
        };
        let j = if is_long_option(t) && i + 1 < toks.len() && !starts_with_dash(toks[i + 1]) { i + 2 } else { i + 1 };
        assert(parse_from(toks, i, acc) == parse_from(toks, j, next));
        law_parse_appends(toks, j, next);
        let out = parse_from(toks, j, next);
        assert(next.positionals.take(acc.positionals.len() as int) =~= acc.positionals);
        assert(next.flags.take(acc.flags.len() as int) =~= acc.flags);
        assert(next.values.take(acc.values.len() as int) =~= acc.values);
        assert(out.positionals.take(acc.positionals.len() as int) =~= next.positionals.take(next.positionals.len() as int).take(acc.positionals.len() as int));
        assert(out.flags.take(acc.flags.len() as int) =~= next.flags.take(next.flags.len() as int).take(acc.flags.len() as int));
        assert(out.values.take(acc.values.len() as int) =~= next.values.take(next.values.len() as int).take(acc.values.len() as int));
    } else {
        assert(acc.positionals.take(acc.positionals.len() as int) =~= acc.positionals);
        assert(acc.flags.take(acc.flags.len() as int) =~= acc.flags);
        assert(acc.values.take(acc.values.len() as int) =~= acc.values);
    }
}

} // verus!
