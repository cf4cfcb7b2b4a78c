//! Line-oriented configuration reader: `[section]` headers and
//! `key = value` lines, with everything after `#` on a line ignored.

use vstd::prelude::*;

verus! {

/// A parse failure, carrying the zero-based line number and the offending
/// line as it looked once its comment was stripped.
#[derive(Debug, PartialEq)]
pub enum ConfigError {
    /// A line opening with `[` that does not close with `]`.
    InvalidSectionLine(usize, String),
    /// A non-section line with no `=` in it.
    InvalidValue(usize, String),
}

/// One parsed assignment, under the section that preceded it.
#[derive(Debug, PartialEq)]
pub struct ConfigKey {
    pub section: String,
    pub key: String,
    pub value: String,
}

/// Mathematical image of a parsed assignment.
pub struct ConfigKeyModel {
    pub section: Seq<char>,
    pub key: Seq<char>,
    pub value: Seq<char>,
}

/// Mathematical image of a parse failure.
pub enum ConfigErrorModel {
    InvalidSectionLine(int, Seq<char>),
    InvalidValue(int, Seq<char>),
}

impl View for ConfigKey {
    type V = ConfigKeyModel;

    open spec fn view(&self) -> ConfigKeyModel {
        ConfigKeyModel { section: self.section@, key: self.key@, value: self.value@ }
    }
}

impl View for ConfigError {
    type V = ConfigErrorModel;

    open spec fn view(&self) -> ConfigErrorModel {
        match self {
            ConfigError::InvalidSectionLine(i, l) => ConfigErrorModel::InvalidSectionLine(
                *i as int,
                l@,
            ),
            ConfigError::InvalidValue(i, l) => ConfigErrorModel::InvalidValue(*i as int, l@),
        }
    }
}

// ---------------------------------------------------------------------------
// Specification
// ---------------------------------------------------------------------------

/// Characters stripped from both ends of keys and values.
pub open spec fn is_space(c: char) -> bool {
    c == ' ' || c == '\t' || c == '\n' || c == '\r' || c == '\u{b}' || c == '\u{c}'
}

/// Length of the prefix of `s` before the first occurrence of `t`; the
/// whole length when `t` does not occur.
pub open spec fn prefix_until(s: Seq<char>, t: char) -> int
    decreases s.len(),
{
    if s.len() == 0 {
        0
    } else if s[0] == t {
        0
    } else {
        1 + prefix_until(s.drop_first(), t)
    }
}

/// What is left of a line once its comment is stripped.
pub open spec fn line_content(line: Seq<char>) -> Seq<char> {
    line.take(prefix_until(line, '#'))
}

/// `s` without its leading whitespace.
pub open spec fn trim_front(s: Seq<char>) -> Seq<char>
    decreases s.len(),
{
    if s.len() > 0 && is_space(s[0]) {
        trim_front(s.drop_first())
    } else {
        s
    }
}

/// `s` without its trailing whitespace.
pub open spec fn trim_back(s: Seq<char>) -> Seq<char>
    decreases s.len(),
{
    if s.len() > 0 && is_space(s[s.len() - 1]) {
        trim_back(s.drop_last())
    } else {
        s
    }
}

/// `s` without leading and trailing whitespace.
pub open spec fn spec_trim(s: Seq<char>) -> Seq<char> {
    trim_back(trim_front(s))
}

/// Parsing from line `i` on, inside section `section`: a line is skipped
/// when nothing is left of it after comment stripping; a line opening with
/// `[` must close with `]` and switches the section; any other line must
/// hold an `=` and yields one assignment, both sides trimmed. The first
/// offending line stops the parse.
pub open spec fn spec_read_from(lines: Seq<Seq<char>>, i: int, section: Seq<char>) -> Result<
    Seq<ConfigKeyModel>,
    ConfigErrorModel,
>
    recommends
        0 <= i <= lines.len(),
    decreases lines.len() - i,
{
    if i < 0 || i >= lines.len() {
        Ok(Seq::empty())
    } else {
        let c = line_content(lines[i]);
        if c.len() == 0 {
            spec_read_from(lines, i + 1, section)
        } else if c[0] == '[' {
            if c[c.len() - 1] != ']' {
                Err(ConfigErrorModel::InvalidSectionLine(i, c))
            } else {
                spec_read_from(lines, i + 1, c.subrange(1, c.len() - 1))
            }
        } else if prefix_until(c, '=') >= c.len() {
            Err(ConfigErrorModel::InvalidValue(i, c))
        } else {
            let e = prefix_until(c, '=');
            let key = spec_trim(c.take(e));
            let value = spec_trim(c.subrange(e + 1, c.len() as int));
            match spec_read_from(lines, i + 1, section) {
                Ok(rest) => Ok(seq![ConfigKeyModel { section, key, value }] + rest),
                Err(x) => Err(x),
            }
        }
    }
}

/// Parsing a whole file: line by line, the starting section empty.
pub open spec fn spec_read_config(lines: Seq<Seq<char>>) -> Result<
    Seq<ConfigKeyModel>,
    ConfigErrorModel,
> {
    spec_read_from(lines, 0, Seq::empty())
}

// ---------------------------------------------------------------------------
// Scanning helpers
// ---------------------------------------------------------------------------

/// A scan that saw no `t` before `i` and stops at `t` or at the end found
/// exactly the prefix length.
proof fn lemma_prefix_until_scan(s: Seq<char>, t: char, i: int)
    requires
        0 <= i <= s.len(),
        forall|j: int| 0 <= j < i ==> s[j] != t,
        i == s.len() || s[i] == t,
    ensures
        prefix_until(s, t) == i,
    decreases s.len(),
{
    if s.len() > 0 && s[0] != t {
        lemma_prefix_until_scan(s.drop_first(), t, i - 1);
    }
}

/// Index of the first occurrence of `t` in `s`, or the length of `s`.
fn find_char(s: &str, t: char) -> (r: usize)
    ensures
        r == prefix_until(s@, t),
        r <= s@.len(),
{
    let len = s.unicode_len();
    let mut i: usize = 0;
    while i < len
        invariant
            0 <= i <= len,
            len == s@.len(),
            forall|j: int| 0 <= j < i ==> s@[j] != t,
        decreases len - i,
    {
        if s.get_char(i) == t {
            proof {
                lemma_prefix_until_scan(s@, t, i as int);
            }
            return i;
        }
        i = i + 1;
    }
    proof {
        lemma_prefix_until_scan(s@, t, len as int);
    }
    len
}

/// Whether `c` counts as whitespace for trimming.
fn is_space_char(c: char) -> (r: bool)
    ensures
        r == is_space(c),
{
    c == ' ' || c == '\t' || c == '\n' || c == '\r' || c == '\u{b}' || c == '\u{c}'
}

/// A front scan that stopped at the first non-space has found where the
/// untrimmed tail begins.
proof fn lemma_trim_front_scan(s: Seq<char>, a: int)
    requires
        0 <= a <= s.len(),
        forall|j: int| 0 <= j < a ==> is_space(s[j]),
        a == s.len() || !is_space(s[a]),
    ensures
        trim_front(s) == s.subrange(a, s.len() as int),
    decreases s.len(),
{
    if s.len() > 0 && is_space(s[0]) {
        lemma_trim_front_scan(s.drop_first(), a - 1);
        assert(s.drop_first().subrange(a - 1, s.drop_first().len() as int) =~= s.subrange(
            a,
            s.len() as int,
        ));
    } else {
        assert(s.subrange(0, s.len() as int) =~= s);
    }
}

/// A back scan that stopped at the last non-space has found where the
/// untrimmed head ends.
proof fn lemma_trim_back_scan(s: Seq<char>, b: int)
    requires
        0 <= b <= s.len(),
        forall|j: int| b <= j < s.len() ==> is_space(s[j]),
        b == 0 || !is_space(s[b - 1]),
    ensures
        trim_back(s) == s.take(b),
    decreases s.len(),
{
    if s.len() > 0 && is_space(s[s.len() - 1]) {
        lemma_trim_back_scan(s.drop_last(), b);
        assert(s.drop_last().take(b) =~= s.take(b));
    } else {
        assert(s.take(s.len() as int) =~= s);
    }
}

/// `s` with leading and trailing whitespace removed.
fn trim_str(s: &str) -> (r: String)
    ensures
        r@ == spec_trim(s@),
{
    let len = s.unicode_len();
    let mut a: usize = 0;
    while a < len && is_space_char(s.get_char(a))
        invariant
            0 <= a <= len,
            len == s@.len(),
            forall|j: int| 0 <= j < a ==> is_space(s@[j]),
        decreases len - a,
    {
        a = a + 1;
    }
    let mut b: usize = len;
    while b > a && is_space_char(s.get_char(b - 1))
        invariant
            a <= b <= len,
            len == s@.len(),
            forall|j: int| 0 <= j < a ==> is_space(s@[j]),
            forall|j: int| b <= j < len ==> is_space(s@[j]),
        decreases b,
    {
        b = b - 1;
    }
    proof {
        lemma_trim_front_scan(s@, a as int);
        let u = s@.subrange(a as int, s@.len() as int);
        lemma_trim_back_scan(u, b - a);
        assert(u.take(b - a) =~= s@.subrange(a as int, b as int));
        if b == a {
            assert(trim_back(u) =~= s@.subrange(a as int, b as int));
        }
    }
    let out = s.substring_char(a, b);
    out.to_owned()
}

// ---------------------------------------------------------------------------
// Parsing
// ---------------------------------------------------------------------------

/// Strips the comment from one numbered line: everything from the first
/// `#` on is dropped, and a line with nothing left is filtered out
/// altogether while keeping its number.
pub fn filter_comments(input: (usize, String)) -> (r: Option<(usize, String)>)
    ensures
        match r {
            None => line_content(input.1@).len() == 0,
            Some(p) => p.0 == input.0 && p.1@ == line_content(input.1@) && p.1@.len() > 0,
        },
{
    let (index, line) = input;
    let h = find_char(line.as_str(), '#');
    let content = line.as_str().substring_char(0, h);
    proof {
        assert(content@ =~= line_content(line@));
    }
    if content.is_empty() {
        None
    } else {
        Some((index, content.to_owned()))
    }
}

/// Parses numbered configuration lines into assignments in file order,
/// or reports the first offending line.
pub fn read_config(lines: &Vec<String>) -> (r: Result<Vec<ConfigKey>, ConfigError>)
    ensures
        match spec_read_config(lines.deep_view()) {
            Ok(ks) => r is Ok && r->Ok_0@.len() == ks.len() && (forall|j: int|
                0 <= j < ks.len() ==> (#[trigger] r->Ok_0@[j])@ == ks[j]),
            Err(e) => r is Err && r->Err_0@ == e,
        },
{
    let ghost ls = lines.deep_view();
    let mut keys: Vec<ConfigKey> = Vec::new();
    let mut section = String::new();
    let mut i: usize = 0;
    proof {
        assert(keys@.map_values(|k: ConfigKey| k@) + spec_read_from(ls, 0, section@)->Ok_0
            =~= spec_read_from(ls, 0, section@)->Ok_0);
    }
    while i < lines.len()
        invariant
            0 <= i <= lines.len(),
            ls == lines.deep_view(),
            ls.len() == lines.len(),
            match spec_read_from(ls, i as int, section@) {
                Ok(rest) => spec_read_config(ls) == Ok::<Seq<ConfigKeyModel>, ConfigErrorModel>(
                    keys@.map_values(|k: ConfigKey| k@) + rest,
                ),
                Err(e) => spec_read_config(ls) == Err::<Seq<ConfigKeyModel>, ConfigErrorModel>(e),
            },
        decreases lines.len() - i,
    {
        proof {
            assert(ls[i as int] == lines@[i as int]@);
        }
        match filter_comments((i, lines[i].clone())) {
            None => {
                i = i + 1;
            },
            Some(pair) => {
                let (index, content) = pair;
                let clen = content.as_str().unicode_len();
                if content.as_str().get_char(0) == '[' {
                    if content.as_str().get_char(clen - 1) != ']' {
                        return Err(ConfigError::InvalidSectionLine(index, content));
                    }
                    let inner = content.as_str().substring_char(1, clen - 1);
                    section = inner.to_owned();
                    i = i + 1;
                } else {
                    let e = find_char(content.as_str(), '=');
                    if e >= clen {
                        return Err(ConfigError::InvalidValue(index, content));
                    }
                    let ghost old_keys = keys@;
                    let ghost old_section = section@;
                    let key = trim_str(content.as_str().substring_char(0, e));
                    let value = trim_str(content.as_str().substring_char(e + 1, clen));
                    keys.push(ConfigKey { section: section.clone(), key, value });
                    proof {
                        let c = line_content(ls[i as int]);
                        assert(c.take(prefix_until(c, '=')) =~= c.subrange(
                            0,
                            prefix_until(c, '='),
                        ));
                        match spec_read_from(ls, i as int + 1, old_section) {
                            Ok(rest) => {
                                assert(keys@.map_values(|k: ConfigKey| k@) =~= old_keys.map_values(
                                    |k: ConfigKey| k@,
                                ).push(keys@[keys@.len() - 1]@));
                                assert(old_keys.map_values(|k: ConfigKey| k@) + (seq![
                                    keys@[keys@.len() - 1]@,
                                ] + rest) =~= keys@.map_values(|k: ConfigKey| k@) + rest);
                            },
                            Err(x) => {},
                        }
                    }
                    i = i + 1;
                }
            },
        }
    }
    proof {
        assert(keys@.map_values(|k: ConfigKey| k@) + Seq::<ConfigKeyModel>::empty() =~= keys@
            .map_values(|k: ConfigKey| k@));
    }
    Ok(keys)
}

} // verus!
