//! The kernel's shell: variables, `$name` expansion, paths relative to the
//! current directory, and what each command line asks for.
use vstd::prelude::*;
use crate::text::{chars_of, chars_eq, string_from_chars, string_from_range, owned, push_all, trim, trim_chars, is_white, is_whitespace};
use crate::filesystem::memfs::{slash_pieces, path_parts, split_path, parts_view, lemma_path_parts_split, lemma_pieces_no_slash};

verus! {

broadcast use vstd::string::group_string_axioms;

/// Whether a character is alphabetic or numeric in Unicode (std's
/// `char::is_alphanumeric`).
pub uninterp spec fn char_alphanumeric(c: char) -> bool;

/// Asks std's `char::is_alphanumeric` about `c`; its answer is named
/// `char_alphanumeric` and nothing more is said of it here.
#[verifier::external_body]
fn is_alphanumeric(c: char) -> (r: bool)
    ensures
        r == char_alphanumeric(c),
{
    c.is_alphanumeric()
}

/// Characters that can make up a variable's name.
pub open spec fn is_name_char(c: char) -> bool {
    char_alphanumeric(c) || c == '_'
}

/// The length of the variable name at the start of `t`.
pub open spec fn name_len(t: Seq<char>) -> nat
    decreases t.len(),
{
    if t.len() > 0 && is_name_char(t[0]) {
        1 + name_len(t.skip(1))
    } else {
        0
    }
}

pub proof fn lemma_name_len(t: Seq<char>)
    ensures
        name_len(t) <= t.len(),
        forall|k: int| 0 <= k < name_len(t) ==> is_name_char(#[trigger] t[k]),
        name_len(t) < t.len() ==> !is_name_char(t[name_len(t) as int]),
    decreases t.len(),
{
    if t.len() > 0 && is_name_char(t[0]) {
        lemma_name_len(t.skip(1));
        assert forall|k: int| 0 <= k < name_len(t) implies is_name_char(#[trigger] t[k]) by {
            if k > 0 {
                assert(t[k] == t.skip(1)[k - 1]);
            }
        }
        if name_len(t) < t.len() {
            assert(t[name_len(t) as int] == t.skip(1)[name_len(t.skip(1)) as int]);
        }
    }
}

/// `s` with every `$name` replaced by the variable's value (or by nothing
/// when there is no such variable).
pub open spec fn expand(s: Seq<char>, vars: Map<Seq<char>, Seq<char>>) -> Seq<char>
    decreases s.len(),
{
    if s.len() == 0 {
        Seq::empty()
    } else if s[0] == '$' {
        let t = s.skip(1);
        let n = name_len(t);
        proof { lemma_name_len(t); }
        let name = t.take(n as int);
        (if vars.contains_key(name) { vars[name] } else { Seq::empty() }) + expand(t.skip(n as int), vars)
    } else {
        seq![s[0]] + expand(s.skip(1), vars)
    }
}

/// One step of walking a path: `.` and empty components stay, `..` goes
/// up (not above the root), anything else goes into that directory.
pub open spec fn step(parts: Seq<Seq<char>>, c: Seq<char>) -> Seq<Seq<char>> {
    if c.len() == 0 || c == seq!['.'] {
        parts
    } else if c == seq!['.', '.'] {
        if parts.len() > 0 { parts.drop_last() } else { parts }
    } else {
        parts.push(c)
    }
}

/// Walking the components `comps` from `parts`.
pub open spec fn walk(parts: Seq<Seq<char>>, comps: Seq<Seq<char>>) -> Seq<Seq<char>>
    decreases comps.len(),
{
    if comps.len() == 0 {
        parts
    } else {
        walk(step(parts, comps[0]), comps.skip(1))
    }
}

/// Components written out, each after a slash.
pub open spec fn slashed(parts: Seq<Seq<char>>) -> Seq<char>
    decreases parts.len(),
{
    if parts.len() == 0 {
        Seq::empty()
    } else {
        slashed(parts.drop_last()) + seq!['/'] + parts.last()
    }
}

/// An absolute path written out (`/` for the root).
pub open spec fn render(parts: Seq<Seq<char>>) -> Seq<char> {
    if parts.len() == 0 { seq!['/'] } else { slashed(parts) }
}

/// `path` resolved against the directory `cwd`.
pub open spec fn resolve(cwd: Seq<char>, path: Seq<char>) -> Seq<char> {
    let base = if path.len() > 0 && path[0] == '/' { Seq::empty() } else { path_parts(cwd) };
    render(walk(base, slash_pieces(path)))
}

/// `t` holds at least two words separated by White_Space.
pub open spec fn several_words(t: Seq<char>) -> bool {
    exists|i: int, j: int, k: int|
        0 <= i < j < k < t.len() && !is_white(#[trigger] t[i]) && is_white(#[trigger] t[j]) && !is_white(#[trigger] t[k])
}

/// The first position of `c` in `s`, if any.
pub open spec fn first_index(s: Seq<char>, c: char) -> Option<int> {
    if exists|i: int| 0 <= i < s.len() && s[i] == c {
        Some(choose|i: int| 0 <= i < s.len() && s[i] == c && forall|j: int| 0 <= j < i ==> s[j] != c)
    } else {
        None
    }
}

/// What `cd` did or needs.
pub enum CdStep {
    /// The current directory was changed.
    Changed,
    /// More than one argument was given.
    TooManyArguments,
    /// The resolved `path` must be checked to be a directory before the
    /// shell moves there (`set_cwd`); `typed` is what was typed.
    Check { path: String, typed: String },
}

/// What a command line asks for.
pub enum Command {
    /// A variable was set (`name = value`).
    Assigned,
    /// Print this line.
    Echo(String),
    /// Clear the screen.
    Clear,
    /// Print the list of built-in commands.
    Help,
    /// Change directory.
    Cd(CdStep),
    /// Run the program `name`, found at `path`.
    Run { name: String, path: String },
    /// An empty command.
    Nothing,
}

/// The shell's variables and current directory.
pub struct ShellState {
    vars: Vec<(String, String)>,
    cwd: String,
}

/// Variable names occur once each.
pub open spec fn keys_unique(v: Seq<(String, String)>) -> bool {
    forall|i: int, j: int| 0 <= i < j < v.len() ==> (#[trigger] v[i]).0@ != (#[trigger] v[j]).0@
}

/// The variables as a map from name to value.
pub open spec fn vars_map(v: Seq<(String, String)>) -> Map<Seq<char>, Seq<char>> {
    Map::new(
        |k: Seq<char>| exists|i: int| 0 <= i < v.len() && (#[trigger] v[i]).0@ == k,
        |k: Seq<char>| v[choose|i: int| 0 <= i < v.len() && (#[trigger] v[i]).0@ == k].1@,
    )
}

proof fn lemma_vars_at(v: Seq<(String, String)>, i: int)
    requires
        keys_unique(v),
        0 <= i < v.len(),
    ensures
        vars_map(v).contains_key(v[i].0@),
        vars_map(v)[v[i].0@] == v[i].1@,
{
    let k = v[i].0@;
    assert(v[i].0@ == k);
    let j = choose|j: int| 0 <= j < v.len() && (#[trigger] v[j]).0@ == k;
    if j != i {
        if j < i {
            assert(v[j].0@ != v[i].0@);
        } else {
            assert(v[i].0@ != v[j].0@);
        }
    }
}

impl ShellState {
    #[verifier::type_invariant]
    closed spec fn inv(self) -> bool {
        keys_unique(self.vars@)
    }

    /// The variables.
    pub closed spec fn vars(&self) -> Map<Seq<char>, Seq<char>> {
        vars_map(self.vars@)
    }

    /// The current directory.
    pub closed spec fn cwd(&self) -> Seq<char> {
        self.cwd@
    }

    /// No variables, at the root.
    pub fn new() -> (r: ShellState)
        ensures
            r.vars() == Map::<Seq<char>, Seq<char>>::empty(),
            r.cwd() == "/"@,
    {
        let r = ShellState { vars: Vec::new(), cwd: owned("/") };
        assert(vars_map(r.vars@) =~= Map::<Seq<char>, Seq<char>>::empty());
        r
    }

    /// Sets the default variables: `path` is `/usr/bin`.
    pub fn init(&mut self)
        ensures
            final(self).vars() == old(self).vars().insert("path"@, "/usr/bin"@),
            final(self).cwd() == old(self).cwd(),
    {
        self.set_var(owned("path"), owned("/usr/bin"));
    }

    /// The current directory, as a string.
    pub fn current_dir(&self) -> (r: String)
        ensures
            r@ == self.cwd(),
    {
        self.cwd.clone()
    }

    /// Moves to `path`.
    pub fn set_cwd(&mut self, path: String)
        ensures
            final(self).cwd() == path@,
            final(self).vars() == old(self).vars(),
    {
        proof { use_type_invariant(&*self); }
        self.cwd = path;
    }

    /// Where a variable is held, if it is.
    fn find_var(&self, name: &Vec<char>) -> (r: Option<usize>)
        ensures
            match r {
                Some(i) => i < self.vars@.len() && self.vars@[i as int].0@ == name@,
                None => forall|i: int| 0 <= i < self.vars@.len() ==> self.vars@[i].0@ != name@,
            },
    {
        let mut i: usize = 0;
        while i < self.vars.len()
            invariant
                i <= self.vars@.len(),
                forall|k: int| 0 <= k < i ==> self.vars@[k].0@ != name@,
            decreases self.vars.len() - i,
        {
            let k = chars_of(self.vars[i].0.as_str());
            if chars_eq(&k, name) {
                return Some(i);
            }
            i = i + 1;
        }
        None
    }

    /// Sets a variable, replacing any value it had.
    pub fn set_var(&mut self, name: String, value: String)
        ensures
            final(self).vars() == old(self).vars().insert(name@, value@),
            final(self).cwd() == old(self).cwd(),
    {
        proof { use_type_invariant(&*self); }
        let n = chars_of(name.as_str());
        let ghost old_vars = self.vars@;
        match self.find_var(&n) {
            Some(i) => {
                let mut vars: Vec<(String, String)> = Vec::new();
                std::mem::swap(&mut vars, &mut self.vars);
                vars.set(i, (name, value));
                proof {
                    assert forall|a: int, b: int| 0 <= a < b < vars@.len() implies (#[trigger] vars@[a]).0@ != (#[trigger] vars@[b]).0@ by {
                        assert(vars@[a].0@ == old_vars[a].0@);
                        assert(vars@[b].0@ == old_vars[b].0@);
                    }
                    assert forall|k: Seq<char>| #[trigger] vars_map(vars@).contains_key(k) == vars_map(old_vars).insert(n@, value@).contains_key(k)
                        && (vars_map(vars@).contains_key(k) ==> vars_map(vars@)[k] == vars_map(old_vars).insert(n@, value@)[k]) by {
                        if k == n@ {
                            lemma_vars_at(vars@, i as int);
                        } else {
                            if vars_map(vars@).contains_key(k) {
                                let j = choose|j: int| 0 <= j < vars@.len() && (#[trigger] vars@[j]).0@ == k;
                                assert(vars@[j] == old_vars[j]);
                                lemma_vars_at(vars@, j);
                                lemma_vars_at(old_vars, j);
                            }
                            if vars_map(old_vars).contains_key(k) {
                                let j = choose|j: int| 0 <= j < old_vars.len() && (#[trigger] old_vars[j]).0@ == k;
                                assert(vars@[j] == old_vars[j]);
                            }
                        }
                    }
                    assert(vars_map(vars@) =~= vars_map(old_vars).insert(n@, value@));
                }
                self.vars = vars;
            },
            None => {
                let mut vars: Vec<(String, String)> = Vec::new();
                std::mem::swap(&mut vars, &mut self.vars);
                vars.push((name, value));
                proof {
                    let last = (vars@.len() - 1) as int;
                    assert forall|a: int, b: int| 0 <= a < b < vars@.len() implies (#[trigger] vars@[a]).0@ != (#[trigger] vars@[b]).0@ by {
                        assert(vars@[a] == old_vars[a]);
                        if b < last {
                            assert(vars@[b] == old_vars[b]);
                        }
                    }
                    assert forall|k: Seq<char>| #[trigger] vars_map(vars@).contains_key(k) == vars_map(old_vars).insert(n@, value@).contains_key(k)
                        && (vars_map(vars@).contains_key(k) ==> vars_map(vars@)[k] == vars_map(old_vars).insert(n@, value@)[k]) by {
                        if k == n@ {
                            lemma_vars_at(vars@, last);
                        } else {
                            if vars_map(vars@).contains_key(k) {
                                let j = choose|j: int| 0 <= j < vars@.len() && (#[trigger] vars@[j]).0@ == k;
                                assert(j != last);
                                assert(vars@[j] == old_vars[j]);
                                lemma_vars_at(vars@, j);
                                lemma_vars_at(old_vars, j);
                            }
                            if vars_map(old_vars).contains_key(k) {
                                let j = choose|j: int| 0 <= j < old_vars.len() && (#[trigger] old_vars[j]).0@ == k;
                                assert(vars@[j] == old_vars[j]);
                            }
                        }
                    }
                    assert(vars_map(vars@) =~= vars_map(old_vars).insert(n@, value@));
                }
                self.vars = vars;
            },
        }
    }
}

/// The pieces of `cs` between slashes, empty ones included.
fn split_slash(cs: &Vec<char>) -> (r: Vec<Vec<char>>)
    ensures
        parts_view(r@) == slash_pieces(cs@),
{
    let mut done: Vec<Vec<char>> = Vec::new();
    let mut cur: Vec<char> = Vec::new();
    let mut i: usize = 0;
    assert(cs@.take(0) =~= Seq::<char>::empty());
    assert(parts_view(done@).push(cur@) =~= seq![Seq::<char>::empty()]);
    while i < cs.len()
        invariant
            i <= cs.len(),
            slash_pieces(cs@.take(i as int)) == parts_view(done@).push(cur@),
        decreases cs.len() - i,
    {
        let c = cs[i];
        assert(cs@.take(i + 1).drop_last() =~= cs@.take(i as int));
        assert(cs@.take(i + 1).last() == c);
        let ghost before = parts_view(done@);
        if c == '/' {
            let ghost prev = cur@;
            let mut fresh: Vec<char> = Vec::new();
            std::mem::swap(&mut fresh, &mut cur);
            done.push(fresh);
            assert(parts_view(done@) =~= before.push(prev));
            assert(slash_pieces(cs@.take(i + 1)) =~= parts_view(done@).push(cur@));
        } else {
            cur.push(c);
            assert(slash_pieces(cs@.take(i + 1)) =~= parts_view(done@).push(cur@));
        }
        i = i + 1;
    }
    assert(cs@.take(cs@.len() as int) =~= cs@);
    let ghost before = parts_view(done@);
    done.push(cur);
    assert(parts_view(done@) =~= before.push(cur@));
    done
}

/// Whether `c` is exactly `.`.
fn is_dot(c: &Vec<char>) -> (r: bool)
    ensures
        r == (c@ == seq!['.']),
{
    let r = c.len() == 1 && c[0] == '.';
    assert(r ==> c@ =~= seq!['.']);
    r
}

/// Whether `c` is exactly `..`.
fn is_dot_dot(c: &Vec<char>) -> (r: bool)
    ensures
        r == (c@ == seq!['.', '.']),
{
    let r = c.len() == 2 && c[0] == '.' && c[1] == '.';
    assert(r ==> c@ =~= seq!['.', '.']);
    r
}

/// Writes out an absolute path.
fn render_parts(parts: &Vec<Vec<char>>) -> (r: String)
    ensures
        r@ == render(parts_view(parts@)),
{
    if parts.len() == 0 {
        let mut s = String::new();
        s.push('/');
        assert(s@ =~= seq!['/']);
        return s;
    }
    let mut s = String::new();
    let mut i: usize = 0;
    while i < parts.len()
        invariant
            i <= parts@.len(),
            s@ == slashed(parts_view(parts@).take(i as int)),
        decreases parts.len() - i,
    {
        assert(parts_view(parts@).take(i + 1).drop_last() =~= parts_view(parts@).take(i as int));
        assert(parts_view(parts@).take(i + 1).last() == parts@[i as int]@);
        s.push('/');
        let piece = string_from_chars(&parts[i]);
        push_all(&mut s, piece.as_str());
        i = i + 1;
    }
    assert(parts_view(parts@).take(parts@.len() as int) =~= parts_view(parts@));
    s
}

/// Whether `t` holds at least two words.
fn has_several_words(t: &Vec<char>) -> (r: bool)
    ensures
        r == several_words(t@),
{
    // state: 0 = before any word, 1 = in or after the first word with no
    // gap seen since, 2 = a gap after a word seen.
    let mut state: u8 = 0;
    let mut i: usize = 0;
    let ghost mut wi: int = 0;
    let ghost mut wj: int = 0;
    while i < t.len()
        invariant
            i <= t@.len(),
            state <= 2,
            state == 0 ==> forall|k: int| 0 <= k < i ==> is_white(#[trigger] t@[k]),
            state >= 1 ==> 0 <= wi < i && !is_white(t@[wi]),
            state == 1 ==> forall|k: int| wi <= k < i ==> !is_white(#[trigger] t@[k]),
            state == 1 ==> forall|a: int, b: int| 0 <= a < b < i && !is_white(#[trigger] t@[a]) ==> !is_white(#[trigger] t@[b]),
            state == 2 ==> wi < wj < i && is_white(t@[wj]),
            state == 2 ==> forall|k: int| wj <= k < i ==> is_white(#[trigger] t@[k]),
            state == 2 ==> forall|a: int, b: int| 0 <= a < b < wj && !is_white(#[trigger] t@[a]) ==> !is_white(#[trigger] t@[b]),
        decreases t.len() - i,
    {
        let w = is_whitespace(t[i]);
        if state == 0 {
            if !w {
                state = 1;
                proof { wi = i as int; }
            }
        } else if state == 1 {
            if w {
                state = 2;
                proof { wj = i as int; }
            }
        } else {
            if !w {
                assert(!is_white(t@[wi]) && is_white(t@[wj]) && !is_white(t@[i as int]));
                return true;
            }
        }
        i = i + 1;
    }
    proof {
        if several_words(t@) {
            let (a, b, c) = choose|a: int, b: int, c: int|
                0 <= a < b < c < t@.len() && !is_white(#[trigger] t@[a]) && is_white(#[trigger] t@[b]) && !is_white(#[trigger] t@[c]);
            if state == 1 {
                assert(!is_white(t@[b]));
            } else if state == 2 {
                if c < wj {
                    assert(!is_white(t@[b]));
                } else {
                    assert(is_white(t@[c]));
                }
            }
        }
    }
    false
}

impl ShellState {
    /// `s` with `$name` replaced by the variables' values.
    pub fn expand_vars(&self, s: &str) -> (r: String)
        ensures
            r@ == expand(s@, self.vars()),
    {
        proof { use_type_invariant(self); }
        let cs = chars_of(s);
        let mut out = String::new();
        let mut i: usize = 0;
        assert(cs@.skip(0) =~= cs@);
        assert(Seq::<char>::empty() + expand(cs@, self.vars()) =~= expand(cs@, self.vars()));
        while i < cs.len()
            invariant
                i <= cs@.len(),
                cs@ == s@,
                keys_unique(self.vars@),
                expand(cs@, self.vars()) == out@ + expand(cs@.skip(i as int), self.vars()),
            decreases cs.len() - i,
        {
            let ghost rest = cs@.skip(i as int);
            if cs[i] == '$' {
                let mut j: usize = i + 1;
                while j < cs.len() && (is_alphanumeric(cs[j]) || cs[j] == '_')
                    invariant
                        i + 1 <= j <= cs@.len(),
                        forall|k: int| i + 1 <= k < j ==> is_name_char(#[trigger] cs@[k]),
                    decreases cs.len() - j,
                {
                    j = j + 1;
                }
                let ghost t = rest.skip(1);
                proof {
                    assert(t =~= cs@.skip(i + 1));
                    lemma_name_len_is(t, (j - i - 1) as int);
                }
                let mut name: Vec<char> = Vec::new();
                let mut k: usize = i + 1;
                while k < j
                    invariant
                        i + 1 <= k <= j <= cs@.len(),
                        name@ == cs@.subrange(i + 1, k as int),
                    decreases j - k,
                {
                    name.push(cs[k]);
                    assert(cs@.subrange(i + 1, k + 1) =~= cs@.subrange(i + 1, k as int).push(cs@[k as int]));
                    k = k + 1;
                }
                assert(name@ =~= t.take((j - i - 1) as int));
                let ghost before = out@;
                match self.find_var(&name) {
                    Some(v) => {
                        proof { lemma_vars_at(self.vars@, v as int); }
                        push_all(&mut out, self.vars[v].1.as_str());
                    },
                    None => {
                        assert(!self.vars().contains_key(name@));
                    },
                }
                assert(t.skip((j - i - 1) as int) =~= cs@.skip(j as int));
                assert(before + expand(rest, self.vars()) =~= out@ + expand(cs@.skip(j as int), self.vars()));
                i = j;
            } else {
                let ghost before = out@;
                out.push(cs[i]);
                assert(rest.skip(1) =~= cs@.skip(i + 1));
                assert(before + expand(rest, self.vars()) =~= out@ + expand(cs@.skip(i + 1), self.vars()));
                i = i + 1;
            }
        }
        assert(out@ + Seq::<char>::empty() =~= out@);
        out
    }

    /// `path` resolved against the current directory. When that directory
    /// is itself a resolved path (the root, or what `cd` moved to), the
    /// result is `/` or a slash-separated path of components that are
    /// neither empty nor `.` nor `..` (see [`law_resolve_result`]), and
    /// resolving it again, from anywhere, gives it back; an absolute path
    /// resolves alike from every directory.
    pub fn resolve_path(&self, path: &str) -> (r: String)
        ensures
            r@ == resolve(self.cwd(), path@),
            proper_parts(path_parts(self.cwd())) ==> proper_parts(path_parts(r@))
                && r@ == render(path_parts(r@))
                && forall|other: Seq<char>| #[trigger] resolve(other, r@) == r@,
            path@.len() > 0 && path@[0] == '/' ==> forall|other: Seq<char>| #[trigger] resolve(other, path@) == r@,
    {
        proof {
            if proper_parts(path_parts(self.cwd())) {
                law_resolve_result(self.cwd(), path@);
            } else if path@.len() > 0 && path@[0] == '/' {
                assert forall|other: Seq<char>| #[trigger] resolve(other, path@) == resolve(self.cwd(), path@) by {}
            }
        }
        let cs = chars_of(path);
        let mut parts: Vec<Vec<char>> = if cs.len() > 0 && cs[0] == '/' {
            Vec::new()
        } else {
            split_path(self.cwd.as_str())
        };
        assert(cs.len() > 0 && cs[0] == '/' ==> parts_view(parts@) =~= Seq::<Seq<char>>::empty());
        let comps = split_slash(&cs);
        let ghost comps_v = parts_view(comps@);
        let ghost target = walk(parts_view(parts@), comps_v);
        let mut i: usize = 0;
        assert(comps_v.skip(0) =~= comps_v);
        while i < comps.len()
            invariant
                i <= comps@.len(),
                comps_v == parts_view(comps@),
                target == walk(parts_view(parts@), comps_v.skip(i as int)),
            decreases comps.len() - i,
        {
            let c = &comps[i];
            let ghost before = parts_view(parts@);
            assert(comps_v.skip(i as int)[0] == c@);
            assert(comps_v.skip(i as int).skip(1) =~= comps_v.skip(i + 1));
            if c.len() == 0 || is_dot(c) {
            } else if is_dot_dot(c) {
                if parts.len() > 0 {
                    parts.pop();
                    assert(parts_view(parts@) =~= before.drop_last());
                }
            } else {
                parts.push(c.clone());
                assert(parts_view(parts@) =~= before.push(c@));
            }
            i = i + 1;
        }
        render_parts(&parts)
    }
}

/// `walk` reads the name at the start of `t`: `n` name characters, then
/// the end or another character.
proof fn lemma_name_len_is(t: Seq<char>, n: int)
    requires
        0 <= n <= t.len(),
        forall|k: int| 0 <= k < n ==> is_name_char(#[trigger] t[k]),
        n < t.len() ==> !is_name_char(t[n]),
    ensures
        name_len(t) == n,
    decreases n,
{
    if n > 0 {
        assert forall|k: int| 0 <= k < n - 1 implies is_name_char(#[trigger] t.skip(1)[k]) by {
            assert(t.skip(1)[k] == t[k + 1]);
        }
        if n - 1 < t.skip(1).len() {
            assert(t.skip(1)[n - 1] == t[n]);
        }
        lemma_name_len_is(t.skip(1), n - 1);
    }
}

/// The first position of `c` in `cs`.
fn find_char(cs: &Vec<char>, c: char) -> (r: Option<usize>)
    ensures
        match r {
            Some(k) => k < cs.len() && cs@[k as int] == c && first_index(cs@, c) == Some(k as int),
            None => first_index(cs@, c) is None,
        },
{
    let mut i: usize = 0;
    while i < cs.len()
        invariant
            i <= cs@.len(),
            forall|j: int| 0 <= j < i ==> cs@[j] != c,
        decreases cs.len() - i,
    {
        if cs[i] == c {
            proof {
                let k = choose|k: int| 0 <= k < cs@.len() && cs@[k] == c && forall|j: int| 0 <= j < k ==> cs@[j] != c;
                if k < i {
                    assert(cs@[k] != c);
                } else if k > i {
                    assert(cs@[i as int] != c);
                }
            }
            return Some(i);
        }
        i = i + 1;
    }
    None
}

/// A command line split at its first space into the command and the rest
/// (what `splitn(2, ' ')` gives).
pub open spec fn split_command(s: Seq<char>) -> (Seq<char>, Seq<char>) {
    match first_index(s, ' ') {
        Some(k) => (s.take(k), s.skip(k + 1)),
        None => (s, Seq::empty()),
    }
}

/// What `cd` with the arguments `args` from the directory `cwd` answers
/// (`r`) and where it leaves the shell (`now`).
pub open spec fn cd_done(cwd: Seq<char>, args: Seq<char>, r: CdStep, now: Seq<char>) -> bool {
    let t = trim(args);
    if t.len() == 0 {
        r is Changed && now == seq!['/']
    } else if several_words(t) {
        r is TooManyArguments && now == cwd
    } else if resolve(cwd, t) == seq!['/'] {
        r is Changed && now == seq!['/']
    } else {
        r matches CdStep::Check { path, typed } && path@ == resolve(cwd, t) && typed@ == t && now == cwd
    }
}

impl ShellState {
    /// `cd`: no argument goes to the root; more than one is refused;
    /// otherwise the path is resolved, and the root is entered at once while
    /// any other directory is to be checked first.
    pub fn cd(&mut self, args: &Vec<char>) -> (r: CdStep)
        ensures
            final(self).vars() == old(self).vars(),
            cd_done(old(self).cwd(), args@, r, final(self).cwd()),
    {
        let t = trim_chars(args);
        if t.len() == 0 {
            let mut root = String::new();
            root.push('/');
            assert(root@ =~= seq!['/']);
            self.set_cwd(root);
            return CdStep::Changed;
        }
        if has_several_words(&t) {
            return CdStep::TooManyArguments;
        }
        let typed = string_from_chars(&t);
        let p = self.resolve_path(typed.as_str());
        let pc = chars_of(p.as_str());
        if pc.len() == 1 && pc[0] == '/' {
            assert(p@ =~= seq!['/']);
            self.set_cwd(p);
            return CdStep::Changed;
        }
        assert(p@ != seq!['/']) by {
            if p@ == seq!['/'] {
                assert(pc@ =~= seq!['/']);
            }
        }
        CdStep::Check { path: p, typed }
    }

    /// Reads a command line: `name = value` sets a variable; otherwise the
    /// first word is the command and the rest its arguments.
    pub fn handle_command(&mut self, input: &str) -> (r: Command)
        ensures
            match first_index(input@, '=') {
                Some(k) => r is Assigned
                    && final(self).vars() == old(self).vars().insert(trim(input@.take(k)), trim(input@.skip(k + 1)))
                    && final(self).cwd() == old(self).cwd(),
                None => {
                    let (cmd, args) = split_command(input@);
                    if cmd == "echo"@ {
                        r matches Command::Echo(line) && line@ == expand(args, old(self).vars())
                            && final(self).vars() == old(self).vars() && final(self).cwd() == old(self).cwd()
                    } else if cmd == "clear"@ {
                        r is Clear && final(self).vars() == old(self).vars() && final(self).cwd() == old(self).cwd()
                    } else if cmd == "help"@ {
                        r is Help && final(self).vars() == old(self).vars() && final(self).cwd() == old(self).cwd()
                    } else if cmd == "cd"@ {
                        r matches Command::Cd(step) && cd_done(old(self).cwd(), args, step, final(self).cwd())
                            && final(self).vars() == old(self).vars()
                    } else if cmd.len() == 0 {
                        r is Nothing && final(self).vars() == old(self).vars() && final(self).cwd() == old(self).cwd()
                    } else {
                        r matches Command::Run { name, path } && name@ == cmd && path@ == "/usr/bin/"@ + cmd
                            && final(self).vars() == old(self).vars() && final(self).cwd() == old(self).cwd()
                    }
                },
            },
    {
        let cs = chars_of(input);
        if let Some(k) = find_char(&cs, '=') {
            self.assign(&cs, k);
            return Command::Assigned;
        }
        let (cmd, args) = split_at_space(&cs);
        self.run_command(cmd, args)
    }

    /// `name = value`: sets the variable named by the trimmed text before
    /// position `k` to the trimmed text after it.
    fn assign(&mut self, cs: &Vec<char>, k: usize)
        requires
            k < cs.len(),
        ensures
            final(self).vars() == old(self).vars().insert(trim(cs@.take(k as int)), trim(cs@.skip(k + 1))),
            final(self).cwd() == old(self).cwd(),
    {
        let key = string_from_chars(&trim_chars(&chars_prefix(cs, k)));
        let val = string_from_chars(&trim_chars(&chars_suffix(cs, k + 1)));
        self.set_var(key, val);
    }

    /// Carries out a command with its arguments.
    fn run_command(&mut self, cmd: Vec<char>, args: Vec<char>) -> (r: Command)
        ensures
            if cmd@ == "echo"@ {
                r matches Command::Echo(line) && line@ == expand(args@, old(self).vars())
                    && final(self).vars() == old(self).vars() && final(self).cwd() == old(self).cwd()
            } else if cmd@ == "clear"@ {
                r is Clear && final(self).vars() == old(self).vars() && final(self).cwd() == old(self).cwd()
            } else if cmd@ == "help"@ {
                r is Help && final(self).vars() == old(self).vars() && final(self).cwd() == old(self).cwd()
            } else if cmd@ == "cd"@ {
                r matches Command::Cd(step) && cd_done(old(self).cwd(), args@, step, final(self).cwd())
                    && final(self).vars() == old(self).vars()
            } else if cmd@.len() == 0 {
                r is Nothing && final(self).vars() == old(self).vars() && final(self).cwd() == old(self).cwd()
            } else {
                r matches Command::Run { name, path } && name@ == cmd@ && path@ == "/usr/bin/"@ + cmd@
                    && final(self).vars() == old(self).vars() && final(self).cwd() == old(self).cwd()
            },
    {
        if chars_eq(&cmd, &chars_of("echo")) {
            let a = string_from_chars(&args);
            Command::Echo(self.expand_vars(a.as_str()))
        } else if chars_eq(&cmd, &chars_of("clear")) {
            Command::Clear
        } else if chars_eq(&cmd, &chars_of("help")) {
            Command::Help
        } else if chars_eq(&cmd, &chars_of("cd")) {
            Command::Cd(self.cd(&args))
        } else if cmd.len() == 0 {
            Command::Nothing
        } else {
            let name = string_from_chars(&cmd);
            let mut path = owned("/usr/bin/");
            push_all(&mut path, name.as_str());
            Command::Run { name, path }
        }
    }
}

/// The first `k` characters.
fn chars_prefix(cs: &Vec<char>, k: usize) -> (r: Vec<char>)
    requires
        k <= cs@.len(),
    ensures
        r@ == cs@.take(k as int),
{
    let mut r: Vec<char> = Vec::new();
    let mut i: usize = 0;
    while i < k
        invariant
            i <= k <= cs@.len(),
            r@ == cs@.take(i as int),
        decreases k - i,
    {
        r.push(cs[i]);
        assert(cs@.take(i + 1) =~= cs@.take(i as int).push(cs@[i as int]));
        i = i + 1;
    }
    r
}

/// The characters from position `k` on.
fn chars_suffix(cs: &Vec<char>, k: usize) -> (r: Vec<char>)
    requires
        k <= cs@.len(),
    ensures
        r@ == cs@.skip(k as int),
{
    let mut r: Vec<char> = Vec::new();
    let mut i: usize = k;
    while i < cs.len()
        invariant
            k <= i <= cs@.len(),
            r@ == cs@.subrange(k as int, i as int),
        decreases cs.len() - i,
    {
        r.push(cs[i]);
        assert(cs@.subrange(k as int, i + 1) =~= cs@.subrange(k as int, i as int).push(cs@[i as int]));
        i = i + 1;
    }
    assert(cs@.subrange(k as int, cs@.len() as int) =~= cs@.skip(k as int));
    r
}

/// Splits a command line at its first space.
fn split_at_space(cs: &Vec<char>) -> (r: (Vec<char>, Vec<char>))
    ensures
        (r.0@, r.1@) == split_command(cs@),
{
    match find_char(cs, ' ') {
        Some(k) => (chars_prefix(cs, k), chars_suffix(cs, k + 1)),
        None => {
            assert(cs@.take(cs@.len() as int) =~= cs@);
            assert(cs@.skip(cs@.len() as int) =~= Seq::<char>::empty());
            (chars_prefix(cs, cs.len()), chars_suffix(cs, cs.len()))
        },
    }
}

/// Text without `$` expands to itself.
pub proof fn law_expand_plain(s: Seq<char>, vars: Map<Seq<char>, Seq<char>>)
    requires
        forall|i: int| 0 <= i < s.len() ==> s[i] != '$',
    ensures
        expand(s, vars) == s,
    decreases s.len(),
{
    if s.len() > 0 {
        assert forall|i: int| 0 <= i < s.skip(1).len() implies s.skip(1)[i] != '$' by {
            assert(s.skip(1)[i] == s[i + 1]);
        }
        law_expand_plain(s.skip(1), vars);
        assert(seq![s[0]] + s.skip(1) =~= s);
    }
}

/// After setting a variable, `$name` expands to its value.
pub proof fn law_set_then_expand(vars: Map<Seq<char>, Seq<char>>, name: Seq<char>, value: Seq<char>)
    requires
        forall|i: int| 0 <= i < name.len() ==> is_name_char(#[trigger] name[i]),
    ensures
        expand(seq!['$'] + name, vars.insert(name, value)) == value,
{
    let s = seq!['$'] + name;
    assert(s.skip(1) =~= name);
    lemma_name_len_is(name, name.len() as int);
    assert(name.take(name.len() as int) =~= name);
    assert(name.skip(name.len() as int) =~= Seq::<char>::empty());
    let m = vars.insert(name, value);
    assert(s.len() > 0);
    assert(s[0] == '$');
    assert(name_len(name) == name.len());
    assert(m.contains_key(name));
    assert(m[name] == value);
    assert(expand(Seq::<char>::empty(), m) == Seq::<char>::empty());
    assert(expand(s, m) == m[name] + expand(name.skip(name.len() as int), m));
    assert(value + Seq::<char>::empty() =~= value);
}

/// Expansion replaces only the `$name` itself: with `name` made of name
/// characters and `rest` not starting with one, `$name` followed by `rest`
/// expands to the variable's value (nothing when it is unset) followed by
/// the expansion of `rest`; whatever follows the name, a space included,
/// is kept.
pub proof fn law_expand_reference(vars: Map<Seq<char>, Seq<char>>, name: Seq<char>, rest: Seq<char>)
    requires
        forall|i: int| 0 <= i < name.len() ==> is_name_char(#[trigger] name[i]),
        rest.len() > 0 ==> !is_name_char(rest[0]),
    ensures
        expand(seq!['$'] + name + rest, vars)
            == (if vars.contains_key(name) { vars[name] } else { Seq::<char>::empty() }) + expand(rest, vars),
{
    let s = seq!['$'] + name + rest;
    let t = name + rest;
    assert(s.skip(1) =~= t);
    assert forall|k: int| 0 <= k < name.len() implies is_name_char(#[trigger] t[k]) by {
        assert(t[k] == name[k]);
    }
    if name.len() < t.len() {
        assert(t[name.len() as int] == rest[0]);
    }
    lemma_name_len_is(t, name.len() as int);
    assert(t.take(name.len() as int) =~= name);
    assert(t.skip(name.len() as int) =~= rest);
    assert(s.len() > 0);
    assert(s[0] == '$');
}

/// Components that a resolved path is made of: non-empty, without
/// slashes, and neither `.` nor `..`.
pub open spec fn proper_parts(parts: Seq<Seq<char>>) -> bool {
    forall|i: int| 0 <= i < parts.len() ==> {
        let c = #[trigger] parts[i];
        &&& c.len() > 0
        &&& c != seq!['.']
        &&& c != seq!['.', '.']
        &&& forall|k: int| 0 <= k < c.len() ==> c[k] != '/'
    }
}

proof fn lemma_walk_proper(acc: Seq<Seq<char>>, parts: Seq<Seq<char>>)
    requires
        proper_parts(parts),
    ensures
        walk(acc, parts) == acc + parts,
    decreases parts.len(),
{
    if parts.len() > 0 {
        assert(parts[0] == parts[0]);
        assert(proper_parts(parts.skip(1))) by {
            assert forall|i: int| 0 <= i < parts.skip(1).len() implies #[trigger] parts.skip(1)[i] == parts[i + 1] by {}
        }
        lemma_walk_proper(acc.push(parts[0]), parts.skip(1));
        assert(acc.push(parts[0]) + parts.skip(1) =~= acc + parts);
    } else {
        assert(acc + parts =~= acc);
    }
}

/// Pieces of a string that ends in slash-free text `t`.
proof fn lemma_pieces_append(s: Seq<char>, t: Seq<char>)
    requires
        forall|k: int| 0 <= k < t.len() ==> t[k] != '/',
    ensures
        slash_pieces(s + t) == slash_pieces(s).update(slash_pieces(s).len() - 1, slash_pieces(s).last() + t),
    decreases t.len(),
{
    crate::filesystem::memfs::lemma_slash_pieces_len_pub(s);
    if t.len() == 0 {
        assert(s + t =~= s);
        assert(slash_pieces(s).last() + t =~= slash_pieces(s).last());
        assert(slash_pieces(s).update(slash_pieces(s).len() - 1, slash_pieces(s).last()) =~= slash_pieces(s));
    } else {
        let t0 = t.drop_last();
        lemma_pieces_append(s, t0);
        assert((s + t).drop_last() =~= s + t0);
        assert((s + t).last() == t.last());
        let p = slash_pieces(s);
        let n = p.len() - 1;
        let r = slash_pieces(s + t0);
        assert(t.last() == t[t.len() - 1]);
        assert((s + t).len() > 0);
        assert(slash_pieces(s + t) == r.update(r.len() - 1, r.last().push(t.last())));
        assert(r == p.update(n, p.last() + t0));
        assert(r.len() == p.len());
        assert(r.last() == p.last() + t0);
        assert((p.last() + t0).push(t.last()) =~= p.last() + t);
        assert(r.update(n, (p.last() + t0).push(t.last())) =~= p.update(n, p.last() + t));
    }
}

/// The pieces of a written-out path: an empty piece before the first
/// slash, then each component.
proof fn lemma_pieces_slashed(parts: Seq<Seq<char>>)
    requires
        proper_parts(parts),
    ensures
        slash_pieces(slashed(parts)) == seq![Seq::<char>::empty()] + parts,
    decreases parts.len(),
{
    if parts.len() == 0 {
        assert(slashed(parts) =~= Seq::<char>::empty());
        assert(seq![Seq::<char>::empty()] + parts =~= seq![Seq::<char>::empty()]);
    } else {
        let p0 = parts.drop_last();
        assert(proper_parts(p0)) by {
            assert forall|i: int| 0 <= i < p0.len() implies #[trigger] p0[i] == parts[i] by {}
        }
        lemma_pieces_slashed(p0);
        let x = parts.last();
        assert(x == parts[parts.len() - 1]);
        let s0 = slashed(p0) + seq!['/'];
        assert(s0.drop_last() =~= slashed(p0));
        assert(s0.last() == '/');
        assert(slash_pieces(s0) == slash_pieces(slashed(p0)).push(Seq::empty()));
        lemma_pieces_append(s0, x);
        assert(slashed(parts) =~= s0 + x);
        assert(Seq::<char>::empty() + x =~= x);
        assert(slash_pieces(slashed(parts)) =~= seq![Seq::<char>::empty()] + parts);
    }
}

/// A written-out path of proper components resolves to itself, from any
/// directory: resolving is idempotent on what it produces.
pub proof fn law_resolve_canonical(parts: Seq<Seq<char>>, cwd: Seq<char>)
    requires
        proper_parts(parts),
    ensures
        resolve(cwd, render(parts)) == render(parts),
{
    if parts.len() == 0 {
        let r = seq!['/'];
        assert(r.len() == 1);
        assert(r.last() == '/');
        assert(r.drop_last() =~= Seq::<char>::empty());
        assert(slash_pieces(r.drop_last()) == seq![Seq::<char>::empty()]);
        assert(slash_pieces(r) == seq![Seq::<char>::empty()].push(Seq::<char>::empty()));
        assert(slash_pieces(r) =~= seq![Seq::<char>::empty(), Seq::<char>::empty()]);
        assert(render(parts) == r);
        assert(walk(Seq::empty(), seq![Seq::<char>::empty(), Seq::<char>::empty()]) =~= Seq::<Seq<char>>::empty()) by {
            let comps = seq![Seq::<char>::empty(), Seq::<char>::empty()];
            assert(comps.skip(1) =~= seq![Seq::<char>::empty()]);
            assert(comps.skip(1).skip(1) =~= Seq::<Seq<char>>::empty());
            let e = Seq::<Seq<char>>::empty();
            assert(step(e, comps[0]) == e);
            assert(step(e, comps.skip(1)[0]) == e);
            assert(walk(e, comps.skip(1).skip(1)) == e);
            assert(walk(e, comps.skip(1)) == walk(step(e, comps.skip(1)[0]), comps.skip(1).skip(1)));
            assert(walk(e, comps) == walk(step(e, comps[0]), comps.skip(1)));
        }
    } else {
        lemma_pieces_slashed(parts);
        let r = slashed(parts);
        lemma_slashed_starts_with_slash(parts);
        let comps = seq![Seq::<char>::empty()] + parts;
        assert(comps.skip(1) =~= parts);
        lemma_walk_proper(Seq::empty(), parts);
        assert(Seq::<Seq<char>>::empty() + parts =~= parts);
    }
}

proof fn lemma_slashed_starts_with_slash(parts: Seq<Seq<char>>)
    requires
        parts.len() > 0,
    ensures
        slashed(parts).len() > 0,
        slashed(parts)[0] == '/',
    decreases parts.len(),
{
    if parts.len() > 1 {
        lemma_slashed_starts_with_slash(parts.drop_last());
    } else {
        assert(parts.drop_last() =~= Seq::<Seq<char>>::empty());
        assert(slashed(parts.drop_last()) =~= Seq::<char>::empty());
    }
}

/// Walking components without slashes from proper components keeps them
/// proper.
proof fn lemma_walk_keeps_proper(acc: Seq<Seq<char>>, comps: Seq<Seq<char>>)
    requires
        proper_parts(acc),
        forall|i: int, k: int| 0 <= i < comps.len() && 0 <= k < comps[i].len() ==> comps[i][k] != '/',
    ensures
        proper_parts(walk(acc, comps)),
    decreases comps.len(),
{
    if comps.len() > 0 {
        let c = comps[0];
        let next = step(acc, c);
        assert(proper_parts(next)) by {
            assert forall|i: int| 0 <= i < next.len() implies {
                let x = #[trigger] next[i];
                &&& x.len() > 0
                &&& x != seq!['.']
                &&& x != seq!['.', '.']
                &&& forall|k: int| 0 <= k < x.len() ==> x[k] != '/'
            } by {
                if i < acc.len() {
                    assert(next[i] == acc[i]);
                } else {
                    assert(next[i] == c);
                    assert forall|k: int| 0 <= k < c.len() implies c[k] != '/' by {
                        assert(comps[0][k] != '/');
                    }
                }
            }
        }
        assert forall|i: int, k: int| 0 <= i < comps.skip(1).len() && 0 <= k < comps.skip(1)[i].len()
            implies comps.skip(1)[i][k] != '/' by {
            assert(comps.skip(1)[i] == comps[i + 1]);
        }
        lemma_walk_keeps_proper(next, comps.skip(1));
    }
}

/// The components of a written-out proper path are those components.
proof fn lemma_parts_of_render(parts: Seq<Seq<char>>)
    requires
        proper_parts(parts),
    ensures
        path_parts(render(parts)) == parts,
{
    if parts.len() == 0 {
        let r = seq!['/'];
        assert(r.drop_last() =~= Seq::<char>::empty());
        assert(slash_pieces(r.drop_last()) == seq![Seq::<char>::empty()]);
        let e = Seq::<char>::empty();
        assert(slash_pieces(r) =~= seq![e, e] + parts);
        lemma_path_parts_split(r, seq![e, e], parts);
    } else {
        lemma_pieces_slashed(parts);
        lemma_path_parts_split(slashed(parts), seq![Seq::<char>::empty()], parts);
    }
}

/// What `cd` and the commands resolve paths to, from a directory that is
/// itself a resolved path (such as the root): the written-out form of
/// proper components (no empty, `.` or `..` component, no trailing slash);
/// resolving that result again, from any directory, changes nothing; its
/// components are again proper, so it can serve as the next directory; and
/// an absolute path resolves alike from every directory.
pub proof fn law_resolve_result(cwd: Seq<char>, path: Seq<char>)
    requires
        proper_parts(path_parts(cwd)),
    ensures
        proper_parts(path_parts(seq!['/'])),
        ({
            let base = if path.len() > 0 && path[0] == '/' { Seq::empty() } else { path_parts(cwd) };
            let q = walk(base, slash_pieces(path));
            &&& proper_parts(q)
            &&& resolve(cwd, path) == render(q)
            &&& path_parts(resolve(cwd, path)) == q
        }),
        forall|other: Seq<char>| #[trigger] resolve(other, resolve(cwd, path)) == resolve(cwd, path),
        path.len() > 0 && path[0] == '/' ==> forall|other: Seq<char>| #[trigger] resolve(other, path) == resolve(cwd, path),
{
    lemma_parts_of_render(Seq::empty());
    let base = if path.len() > 0 && path[0] == '/' { Seq::<Seq<char>>::empty() } else { path_parts(cwd) };
    lemma_pieces_no_slash(path);
    lemma_walk_keeps_proper(base, slash_pieces(path));
    let q = walk(base, slash_pieces(path));
    lemma_parts_of_render(q);
    assert forall|other: Seq<char>| #[trigger] resolve(other, resolve(cwd, path)) == resolve(cwd, path) by {
        law_resolve_canonical(q, other);
    }
}

/// A string without slashes is one piece.
proof fn lemma_pieces_single(c: Seq<char>)
    requires
        forall|k: int| 0 <= k < c.len() ==> c[k] != '/',
    ensures
        slash_pieces(c) == seq![c],
    decreases c.len(),
{
    if c.len() > 0 {
        let d = c.drop_last();
        assert forall|k: int| 0 <= k < d.len() implies d[k] != '/' by {
            assert(d[k] == c[k]);
        }
        lemma_pieces_single(d);
        assert(c.last() == c[c.len() - 1]);
        assert(d.push(c.last()) =~= c);
        assert(seq![d].update(0, c) =~= seq![c]);
    } else {
        assert(c =~= Seq::<char>::empty());
    }
}

/// Text without White_Space at either end trims to itself, and is one word.
proof fn lemma_one_word(c: Seq<char>)
    requires
        forall|k: int| 0 <= k < c.len() ==> !is_white(#[trigger] c[k]),
    ensures
        trim(c) == c,
        !several_words(c),
{
    if c.len() > 0 {
        assert(!is_white(c[0]));
        assert(!is_white(c[c.len() - 1]));
    }
}

/// `cd` into a subdirectory: from a directory that is a resolved path, one
/// relative name (not `.` or `..`, no slash, no White_Space) asks to check
/// that name inside the current directory, and stays put until then.
/// (From `/usr`, `cd bin` asks to check `/usr/bin`.)
pub proof fn law_cd_relative(q: Seq<Seq<char>>, c: Seq<char>, r: CdStep, now: Seq<char>)
    requires
        proper_parts(q),
        c.len() > 0,
        c != seq!['.'],
        c != seq!['.', '.'],
        forall|k: int| 0 <= k < c.len() ==> c[k] != '/' && !is_white(#[trigger] c[k]),
        cd_done(render(q), c, r, now),
    ensures
        r matches CdStep::Check { path, typed } && path@ == render(q.push(c)) && typed@ == c,
        now == render(q),
{
    lemma_one_word(c);
    lemma_parts_of_render(q);
    assert forall|k: int| 0 <= k < c.len() implies c[k] != '/' by {}
    lemma_pieces_single(c);
    let cs = seq![c];
    assert(cs.skip(1) =~= Seq::<Seq<char>>::empty());
    assert(walk(q, cs) == walk(step(q, cs[0]), cs.skip(1)));
    assert(step(q, c) == q.push(c));
    assert(q.push(c).drop_last() =~= q);
    assert(q.push(c).last() == c);
    assert(resolve(render(q), c) == render(q.push(c)));
    assert(slashed(q.push(c)) == slashed(q) + seq!['/'] + c);
    assert(render(q.push(c)).len() >= 2);
}

/// `cd ..` from a directory that is a resolved path goes to its parent:
/// the root directly, any other parent after a check. (From `/usr/bin`,
/// `cd ..` asks to check `/usr`; from `/usr` it goes to `/`.)
pub proof fn law_cd_parent(q: Seq<Seq<char>>, r: CdStep, now: Seq<char>)
    requires
        proper_parts(q),
        q.len() > 0,
        cd_done(render(q), seq!['.', '.'], r, now),
    ensures
        q.len() == 1 ==> r is Changed && now == seq!['/'],
        q.len() > 1 ==> (r matches CdStep::Check { path, typed } && path@ == render(q.drop_last())
            && typed@ == seq!['.', '.'] && now == render(q)),
{
    let c = seq!['.', '.'];
    lemma_one_word(c);
    lemma_parts_of_render(q);
    lemma_pieces_single(c);
    let cs = seq![c];
    assert(cs.skip(1) =~= Seq::<Seq<char>>::empty());
    assert(walk(q, cs) == walk(step(q, cs[0]), cs.skip(1)));
    assert(step(q, c) == q.drop_last());
    assert(resolve(render(q), c) == render(q.drop_last()));
    if q.len() > 1 {
        let p = q.drop_last();
        assert(p.len() > 0);
        assert(slashed(p) == slashed(p.drop_last()) + seq!['/'] + p.last());
        assert(p.last() == q[q.len() - 2]);
        assert(p.last().len() > 0);
        assert(render(p).len() >= 2);
    }
}

} // verus!
