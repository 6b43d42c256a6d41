//! Decisions of the interactive SQL shell: which dot command a line names,
//! when buffered lines form a complete statement, and which reader a data
//! file needs.
use crate::batch::same_text;
use crate::template::joined;
use crate::text::{chars_of, push_range, push_str, string_from_chars, trim, trimmed_range, views, white_space, is_white_space};
use vstd::prelude::*;

verus! {

/// The text with its letters in lower case, as `str::to_lowercase` gives it.
pub uninterp spec fn lowercase_of(s: Seq<char>) -> Seq<char>;

/// Relies on `str::to_lowercase`: the result depends on the characters
/// alone.
#[verifier::external_body]
fn lowercase(s: &str) -> (r: String)
    ensures
        r@ == lowercase_of(s@),
{
    s.to_lowercase()
}

pub open spec fn flush(cur: Seq<char>) -> Seq<Seq<char>> {
    if cur.len() > 0 {
        seq![cur]
    } else {
        Seq::empty()
    }
}

/// The words of `s` from `i` on, where `cur` is the word being read: the
/// runs of characters between white space.
pub open spec fn words_from(s: Seq<char>, i: int, cur: Seq<char>) -> Seq<Seq<char>>
    decreases s.len() - i,
{
    if i < 0 || i >= s.len() {
        flush(cur)
    } else if white_space(s[i]) {
        flush(cur) + words_from(s, i + 1, Seq::empty())
    } else {
        words_from(s, i + 1, cur.push(s[i]))
    }
}

/// The words of `s`, as `str::split_whitespace` gives them.
pub open spec fn words(s: Seq<char>) -> Seq<Seq<char>> {
    words_from(s, 0, Seq::empty())
}

/// Splits a line into its words.
pub fn split_words(s: &str) -> (r: Vec<String>)
    ensures
        views(r@) == words(s@),
{
    let cs = chars_of(s);
    let mut out: Vec<String> = Vec::new();
    let mut cur: Vec<char> = Vec::new();
    let mut i: usize = 0;
    while i < cs.len()
        invariant
            i <= cs@.len(),
            cs@ == s@,
            views(out@) + words_from(cs@, i as int, cur@) == words(s@),
        decreases cs@.len() - i,
    {
        let c = cs[i];
        if is_white_space(c) {
            let ghost before = views(out@);
            if cur.len() > 0 {
                out.push(string_from_chars(&cur));
                assert(views(out@) =~= before + flush(cur@));
            } else {
                assert(views(out@) =~= before + flush(cur@));
            }
            assert(before + (flush(cur@) + words_from(cs@, i + 1, Seq::empty())) =~= views(out@)
                + words_from(cs@, i + 1, Seq::empty()));
            cur = Vec::new();
            assert(cur@ =~= Seq::<char>::empty());
        } else {
            cur.push(c);
        }
        i += 1;
    }
    let ghost before = views(out@);
    if cur.len() > 0 {
        out.push(string_from_chars(&cur));
    }
    assert(views(out@) =~= before + flush(cur@));
    out
}

/// A shell command: a line that starts with a dot.
#[derive(Debug, Clone, PartialEq, Eq)]
pub enum DotCommand {
    Quit,
    Help,
    Tables,
    /// The table named, if any.
    Schema(Option<String>),
    /// The rest of the line (a path or `name=path`), if any.
    Load(Option<String>),
    Functions,
    /// The command word, in lower case.
    Unknown(String),
}

/// The command word of a line: its first word in lower case.
pub open spec fn command_word(line: Seq<char>) -> Seq<char> {
    if words(line).len() > 0 {
        lowercase_of(words(line)[0])
    } else {
        lowercase_of(Seq::empty())
    }
}

pub open spec fn one_of(w: Seq<char>, a: Seq<char>, b: Seq<char>) -> bool {
    w == a || w == b
}

/// The argument of a command: the words after the first, joined by spaces.
pub open spec fn command_argument(line: Seq<char>) -> Option<Seq<char>> {
    if words(line).len() >= 2 {
        Some(joined(words(line).drop_first(), " "@))
    } else {
        None
    }
}

/// Which command a dot line names.
pub open spec fn dot_command_is(line: Seq<char>, c: DotCommand) -> bool {
    let w = command_word(line);
    if w == ".quit"@ || w == ".exit"@ || w == ".q"@ {
        c is Quit
    } else if one_of(w, ".help"@, ".h"@) {
        c is Help
    } else if one_of(w, ".tables"@, ".t"@) {
        c is Tables
    } else if one_of(w, ".schema"@, ".s"@) {
        c matches DotCommand::Schema(a) && match a {
            Some(t) => words(line).len() >= 2 && t@ == words(line)[1],
            None => words(line).len() < 2,
        }
    } else if one_of(w, ".load"@, ".l"@) {
        c matches DotCommand::Load(a) && match a {
            Some(p) => command_argument(line) == Some(p@),
            None => command_argument(line) is None,
        }
    } else if one_of(w, ".functions"@, ".f"@) {
        c is Functions
    } else {
        c matches DotCommand::Unknown(u) && u@ == w
    }
}

/// Reads a dot command from a line.
pub fn parse_dot_command(line: &str) -> (r: DotCommand)
    ensures
        dot_command_is(line@, r),
{
    let parts = split_words(line);
    let word = if parts.len() > 0 {
        lowercase(parts[0].as_str())
    } else {
        lowercase("")
    };
    proof {
        if parts@.len() == 0 {
            assert(""@ =~= Seq::<char>::empty()) by {
                reveal_strlit("");
            }
        }
    }
    let w = word.as_str();
    if same_text(w, ".quit") || same_text(w, ".exit") || same_text(w, ".q") {
        DotCommand::Quit
    } else if same_text(w, ".help") || same_text(w, ".h") {
        DotCommand::Help
    } else if same_text(w, ".tables") || same_text(w, ".t") {
        DotCommand::Tables
    } else if same_text(w, ".schema") || same_text(w, ".s") {
        if parts.len() >= 2 {
            DotCommand::Schema(Some(parts[1].clone()))
        } else {
            DotCommand::Schema(None)
        }
    } else if same_text(w, ".load") || same_text(w, ".l") {
        if parts.len() >= 2 {
            let mut out: Vec<char> = Vec::new();
            let mut k: usize = 1;
            while k < parts.len()
                invariant
                    1 <= k <= parts@.len(),
                    out@ == joined(views(parts@).subrange(1, k as int), " "@),
                decreases parts@.len() - k,
            {
                let ghost before = out@;
                if k > 1 {
                    push_str(&mut out, " ");
                }
                push_str(&mut out, parts[k].as_str());
                proof {
                    let next = views(parts@).subrange(1, k + 1);
                    assert(next.drop_last() =~= views(parts@).subrange(1, k as int));
                    assert(next.last() == parts@[k as int]@);
                    if k == 1 {
                        assert(views(parts@).subrange(1, 1) =~= Seq::<Seq<char>>::empty());
                        assert(out@ =~= joined(next, " "@));
                    } else {
                        assert(out@ =~= joined(next, " "@));
                    }
                }
                k += 1;
            }
            assert(views(parts@).subrange(1, k as int) =~= views(parts@).drop_first());
            DotCommand::Load(Some(string_from_chars(&out)))
        } else {
            DotCommand::Load(None)
        }
    } else if same_text(w, ".functions") || same_text(w, ".f") {
        DotCommand::Functions
    } else {
        DotCommand::Unknown(word)
    }
}

/// `s` without the `;` characters at its end.
pub open spec fn without_semicolons(s: Seq<char>) -> Seq<char>
    decreases s.len(),
{
    if s.len() > 0 && s.last() == ';' {
        without_semicolons(s.drop_last())
    } else {
        s
    }
}

/// A complete statement: the text kept in history and the SQL to run.
#[derive(Debug, Clone, PartialEq, Eq)]
pub struct Statement {
    pub history: String,
    pub sql: String,
}

/// The lines typed so far of a statement that is not complete yet.
#[derive(Debug, Clone)]
pub struct StatementBuffer {
    pub text: String,
}

impl StatementBuffer {
    pub fn new() -> (r: StatementBuffer)
        ensures
            r.text@.len() == 0,
    {
        StatementBuffer { text: String::new() }
    }

    /// Whether a line is a dot command: it starts with a dot, outside of a
    /// statement being typed.
    pub fn is_command(&self, line: &str) -> (r: bool)
        ensures
            r == (self.text@.len() == 0 && trim(line@).len() > 0 && trim(line@)[0] == '.'),
    {
        let cs = chars_of(line);
        let t = trimmed_range(&cs, 0, cs.len());
        assert(cs@.subrange(0, cs@.len() as int) =~= cs@);
        chars_of(self.text.as_str()).len() == 0 && t.len() > 0 && t[0] == '.'
    }

    /// Takes in a typed line. A line that ends with `;` completes the
    /// statement: the buffer empties, and the statement comes back unless
    /// it holds nothing but semicolons.
    pub fn feed(&mut self, line: &str) -> (r: Option<Statement>)
        ensures
            ({
                let t = trim(line@);
                let text = old(self).text@ + t + " "@;
                if t.len() > 0 && t.last() == ';' {
                    &&& final(self).text@.len() == 0
                    &&& if without_semicolons(trim(text)).len() > 0 {
                        r matches Some(st) && st.history@ == trim(text) && st.sql@
                            == without_semicolons(trim(text))
                    } else {
                        r is None
                    }
                } else {
                    final(self).text@ == text && r is None
                }
            }),
    {
        let cs = chars_of(line);
        let t = trimmed_range(&cs, 0, cs.len());
        assert(cs@.subrange(0, cs@.len() as int) =~= cs@);
        let mut text = chars_of(self.text.as_str());
        push_range(&mut text, &t, 0, t.len());
        push_str(&mut text, " ");
        assert(t@.subrange(0, t@.len() as int) =~= t@);
        if t.len() > 0 && t[t.len() - 1] == ';' {
            self.text = String::new();
            let whole = trimmed_range(&text, 0, text.len());
            assert(text@.subrange(0, text@.len() as int) =~= text@);
            let mut end = whole.len();
            assert(whole@.subrange(0, end as int) =~= whole@);
            while end > 0 && whole[end - 1] == ';'
                invariant
                    end <= whole@.len(),
                    without_semicolons(whole@) == without_semicolons(whole@.subrange(0, end as int)),
                decreases end,
            {
                assert(whole@.subrange(0, end as int).drop_last() =~= whole@.subrange(0, end - 1));
                end -= 1;
            }
            assert(without_semicolons(whole@.subrange(0, end as int)) == whole@.subrange(0, end as int));
            if end == 0 {
                return None;
            }
            let mut sql: Vec<char> = Vec::new();
            push_range(&mut sql, &whole, 0, end);
            assert(sql@ =~= whole@.subrange(0, end as int));
            Some(Statement { history: string_from_chars(&whole), sql: string_from_chars(&sql) })
        } else {
            self.text = string_from_chars(&text);
            None
        }
    }

    /// The prompt to show: a fresh one, or a continuation one while a
    /// statement is being typed.
    pub fn prompt(&self) -> (r: &'static str)
        ensures
            self.text@.len() == 0 ==> r@ == "llmql> "@,
            self.text@.len() > 0 ==> r@ == "   ...> "@,
    {
        if chars_of(self.text.as_str()).len() == 0 {
            "llmql> "
        } else {
            "   ...> "
        }
    }
}

/// The reader a data file needs.
#[derive(Debug, Clone, Copy, PartialEq, Eq, Structural)]
pub enum TableFormat {
    Csv,
    Parquet,
    Json,
}

/// The reader for a file extension, in any letter case: `csv`, `parquet`,
/// and `json`, `jsonl` or `ndjson`; none for any other.
pub fn table_format(extension: &str) -> (r: Option<TableFormat>)
    ensures
        ({
            let e = lowercase_of(extension@);
            &&& e == "csv"@ ==> r == Some(TableFormat::Csv)
            &&& e == "parquet"@ ==> r == Some(TableFormat::Parquet)
            &&& (e == "json"@ || e == "jsonl"@ || e == "ndjson"@) ==> r == Some(TableFormat::Json)
            &&& (e != "csv"@ && e != "parquet"@ && e != "json"@ && e != "jsonl"@ && e
                != "ndjson"@) ==> r is None
        }),
{
    let lower = lowercase(extension);
    let e = lower.as_str();
    proof {
        reveal_strlit("csv");
        reveal_strlit("parquet");
        reveal_strlit("json");
        reveal_strlit("jsonl");
        reveal_strlit("ndjson");
        assert("csv"@.len() == 3 && "json"@.len() == 4 && "jsonl"@.len() == 5);
        assert("ndjson"@.len() == 6 && "parquet"@.len() == 7);
    }
    if same_text(e, "csv") {
        Some(TableFormat::Csv)
    } else if same_text(e, "parquet") {
        Some(TableFormat::Parquet)
    } else if same_text(e, "json") || same_text(e, "jsonl") || same_text(e, "ndjson") {
        Some(TableFormat::Json)
    } else {
        None
    }
}

/// The position of the first `=` in `s` from `i` on, if any.
pub open spec fn first_equals(s: Seq<char>, i: int) -> Option<int>
    decreases s.len() - i,
{
    if i < 0 || i >= s.len() {
        None
    } else if s[i] == '=' {
        Some(i)
    } else {
        first_equals(s, i + 1)
    }
}

/// Splits a table argument `name=path` at its first `=`; none where it has
/// no `=` (the argument is then a bare path).
pub fn split_table_spec(spec: &str) -> (r: Option<(String, String)>)
    ensures
        match first_equals(spec@, 0) {
            Some(k) => r matches Some((name, path)) && name@ == spec@.subrange(0, k) && path@
                == spec@.subrange(k + 1, spec@.len() as int),
            None => r is None,
        },
{
    let cs = chars_of(spec);
    let mut i: usize = 0;
    while i < cs.len()
        invariant
            i <= cs@.len(),
            cs@ == spec@,
            first_equals(spec@, 0) == first_equals(spec@, i as int),
        decreases cs@.len() - i,
    {
        if cs[i] == '=' {
            let mut name: Vec<char> = Vec::new();
            push_range(&mut name, &cs, 0, i);
            let mut path: Vec<char> = Vec::new();
            push_range(&mut path, &cs, i + 1, cs.len());
            assert(name@ =~= spec@.subrange(0, i as int));
            assert(path@ =~= spec@.subrange(i + 1, spec@.len() as int));
            return Some((string_from_chars(&name), string_from_chars(&path)));
        }
        i += 1;
    }
    None
}

} // verus!
