//! Prompt templates: positional placeholders `{i}`, brace escapes `{{` and
//! `}}`, and range placeholders `{a:b<sep>}` that embed a run of values.
use crate::text::{
    all_digits, chars_of, decimal, digits_value, is_digit, push_decimal, push_range, push_str,
    string_from_chars, views,
};
use std::collections::HashSet;
use vstd::prelude::*;

verus! {

broadcast use vstd::std_specs::hash::group_hash_axioms;

/// A hard error found in a template.
#[derive(Debug, Clone, Copy, PartialEq, Eq, Structural)]
pub enum TemplateError {
    /// Placeholder index, number of arguments.
    MissingPlaceholder(usize, usize),
    /// Argument position, highest placeholder used.
    UnusedArgument(usize, usize),
    /// Position of the `{` that is never closed.
    UnclosedPlaceholder(usize),
    /// Position of an empty `{}`.
    InvalidPlaceholder(usize),
    /// First index referenced that has no value, number of values.
    PlaceholderOutOfRange(usize, usize),
}

pub open spec fn error_text(e: TemplateError) -> Seq<char> {
    match e {
        TemplateError::MissingPlaceholder(i, n) => "Missing placeholder {"@ + decimal(i as nat)
            + "} in template (have "@ + decimal(n as nat) + " arguments)"@,
        TemplateError::UnusedArgument(i, m) => "Unused argument at position "@ + decimal(
            i as nat,
        ) + " (template only uses placeholders up to {"@ + decimal(m as nat) + "})"@,
        TemplateError::UnclosedPlaceholder(p) => "Unclosed placeholder starting at position "@
            + decimal(p as nat),
        TemplateError::InvalidPlaceholder(p) => "Invalid placeholder '{}' at position "@
            + decimal(p as nat) + " (expected a number)"@,
        TemplateError::PlaceholderOutOfRange(i, n) => "Placeholder {"@ + decimal(i as nat)
            + "} is out of range for "@ + decimal(n as nat) + " value(s)"@,
    }
}

impl TemplateError {
    /// The error as a sentence.
    pub fn message(&self) -> (r: String)
        ensures
            r@ == error_text(*self),
    {
        let mut out: Vec<char> = Vec::new();
        match *self {
            TemplateError::MissingPlaceholder(i, n) => {
                push_str(&mut out, "Missing placeholder {");
                push_decimal(&mut out, i);
                push_str(&mut out, "} in template (have ");
                push_decimal(&mut out, n);
                push_str(&mut out, " arguments)");
            },
            TemplateError::UnusedArgument(i, m) => {
                push_str(&mut out, "Unused argument at position ");
                push_decimal(&mut out, i);
                push_str(&mut out, " (template only uses placeholders up to {");
                push_decimal(&mut out, m);
                push_str(&mut out, "})");
            },
            TemplateError::UnclosedPlaceholder(p) => {
                push_str(&mut out, "Unclosed placeholder starting at position ");
                push_decimal(&mut out, p);
            },
            TemplateError::InvalidPlaceholder(p) => {
                push_str(&mut out, "Invalid placeholder '{}' at position ");
                push_decimal(&mut out, p);
                push_str(&mut out, " (expected a number)");
            },
            TemplateError::PlaceholderOutOfRange(i, n) => {
                push_str(&mut out, "Placeholder {");
                push_decimal(&mut out, i);
                push_str(&mut out, "} is out of range for ");
                push_decimal(&mut out, n);
                push_str(&mut out, " value(s)");
            },
        }
        string_from_chars(&out)
    }
}

/// What a scan of a template finds: hard errors, warnings, the numeric
/// placeholders and the largest of them.
pub struct TemplateFacts {
    pub errors: Seq<TemplateError>,
    pub warnings: Seq<Seq<char>>,
    pub found: Set<usize>,
    pub max: Option<usize>,
}

pub open spec fn no_facts() -> TemplateFacts {
    TemplateFacts {
        errors: Seq::empty(),
        warnings: Seq::empty(),
        found: Set::empty(),
        max: None,
    }
}

/// The index named by a placeholder's content: a non-empty run of decimal
/// digits (no sign) whose value fits in `usize`.
pub open spec fn index_of(content: Seq<char>) -> Option<usize> {
    if content.len() > 0 && all_digits(content) && digits_value(content) <= usize::MAX {
        Some(digits_value(content) as usize)
    } else {
        None
    }
}

pub open spec fn foreign_warning(content: Seq<char>, start: int) -> Seq<char> {
    "Non-numeric placeholder '{"@ + content + "}' at position "@ + decimal(start as nat)
}

pub open spec fn unmatched_warning(pos: int) -> Seq<char> {
    "Unmatched '}' at position "@ + decimal(pos as nat)
}

/// Records the placeholder `{content}` that opens at `start`.
pub open spec fn note_placeholder(f: TemplateFacts, content: Seq<char>, start: int) -> TemplateFacts {
    if content.len() == 0 {
        TemplateFacts { errors: f.errors.push(TemplateError::InvalidPlaceholder(start as usize)), ..f }
    } else {
        match index_of(content) {
            Some(n) => TemplateFacts {
                found: f.found.insert(n),
                max: Some(
                    match f.max {
                        Some(m) => if m >= n {
                            m
                        } else {
                            n
                        },
                        None => n,
                    },
                ),
                ..f
            },
            None => TemplateFacts { warnings: f.warnings.push(foreign_warning(content, start)), ..f },
        }
    }
}

/// The scan from position `i` on, where `open` is the position of the `{`
/// of a placeholder still being read.
pub open spec fn scan_from(t: Seq<char>, i: int, open: Option<int>, f: TemplateFacts) -> TemplateFacts
    decreases t.len() - i,
{
    if i < 0 || i >= t.len() {
        match open {
            Some(s) => TemplateFacts {
                errors: f.errors.push(TemplateError::UnclosedPlaceholder(s as usize)),
                ..f
            },
            None => f,
        }
    } else {
        match open {
            Some(s) => if t[i] == '}' {
                scan_from(t, i + 1, None, note_placeholder(f, t.subrange(s + 1, i), s))
            } else {
                scan_from(t, i + 1, open, f)
            },
            None => if t[i] == '{' {
                if i + 1 < t.len() && t[i + 1] == '{' {
                    scan_from(t, i + 2, None, f)
                } else {
                    scan_from(t, i + 1, Some(i), f)
                }
            } else if t[i] == '}' {
                if i + 1 < t.len() && t[i + 1] == '}' {
                    scan_from(t, i + 2, None, f)
                } else {
                    scan_from(
                        t,
                        i + 1,
                        None,
                        TemplateFacts { warnings: f.warnings.push(unmatched_warning(i)), ..f },
                    )
                }
            } else {
                scan_from(t, i + 1, None, f)
            },
        }
    }
}

/// What a left-to-right scan of the whole template finds.
pub open spec fn template_facts(t: Seq<char>) -> TemplateFacts {
    scan_from(t, 0, None, no_facts())
}

/// The outcome of scanning a template.
#[derive(Debug)]
pub struct ValidationResult {
    pub errors: Vec<TemplateError>,
    pub warnings: Vec<String>,
    pub placeholders_found: HashSet<usize>,
    pub max_placeholder: Option<usize>,
}

impl ValidationResult {
    pub open spec fn facts(&self) -> TemplateFacts {
        TemplateFacts {
            errors: self.errors@,
            warnings: views(self.warnings@),
            found: self.placeholders_found@,
            max: self.max_placeholder,
        }
    }

    pub fn is_valid(&self) -> (r: bool)
        ensures
            r == (self.errors@.len() == 0),
    {
        self.errors.len() == 0
    }

    pub fn has_warnings(&self) -> (r: bool)
        ensures
            r == (self.warnings@.len() > 0),
    {
        self.warnings.len() > 0
    }
}

/// The value of the digits `s[from..to]`, or `None` where one of them is not
/// a digit or the value exceeds `limit`.
pub fn parse_digits(s: &Vec<char>, from: usize, to: usize, limit: usize) -> (r: Option<usize>)
    requires
        from <= to <= s@.len(),
    ensures
        match r {
            Some(v) => all_digits(s@.subrange(from as int, to as int)) && v == digits_value(
                s@.subrange(from as int, to as int),
            ) && v <= limit,
            None => !all_digits(s@.subrange(from as int, to as int)) || digits_value(
                s@.subrange(from as int, to as int),
            ) > limit,
        },
{
    let mut v: usize = 0;
    let mut i = from;
    while i < to
        invariant
            from <= i <= to <= s@.len(),
            all_digits(s@.subrange(from as int, i as int)),
            v == digits_value(s@.subrange(from as int, i as int)),
            v <= limit,
        decreases to - i,
    {
        let c = s[i];
        let ghost prefix = s@.subrange(from as int, i as int);
        let ghost next = s@.subrange(from as int, i + 1);
        assert(next.drop_last() =~= prefix);
        assert(next.last() == c);
        if !('0' <= c && c <= '9') {
            assert(!all_digits(s@.subrange(from as int, to as int))) by {
                assert(s@.subrange(from as int, to as int)[i - from] == c);
            }
            return None;
        }
        let d = (c as u32 - '0' as u32) as usize;
        if d > limit || v > (limit - d) / 10 {
            proof {
                if d <= limit {
                    assert(v * 10 + d > limit) by (nonlinear_arith)
                        requires
                            v > (limit - d) / 10,
                            d <= limit,
                    ;
                }
                if all_digits(s@.subrange(from as int, to as int)) {
                    lemma_digits_grow(s@.subrange(from as int, to as int), (i + 1 - from) as nat);
                    assert(s@.subrange(from as int, to as int).take(i + 1 - from) =~= next);
                }
            }
            return None;
        }
        assert(v * 10 + d <= limit) by (nonlinear_arith)
            requires
                v <= (limit - d) / 10,
                d <= limit,
        ;
        v = v * 10 + d;
        i += 1;
        assert(all_digits(next)) by {
            assert forall|j: int| 0 <= j < next.len() implies is_digit(#[trigger] next[j]) by {
                if j < next.len() - 1 {
                    assert(next[j] == prefix[j]);
                }
            }
        }
    }
    Some(v)
}

/// The value of a digit string is at least that of any of its prefixes.
pub proof fn lemma_digits_grow(s: Seq<char>, k: nat)
    requires
        k <= s.len(),
        all_digits(s),
    ensures
        digits_value(s) >= digits_value(s.take(k as int)),
    decreases s.len(),
{
    if k < s.len() {
        assert(s.drop_last().take(k as int) =~= s.take(k as int));
        assert(all_digits(s.drop_last())) by {
            assert forall|j: int| 0 <= j < s.drop_last().len() implies is_digit(
                #[trigger] s.drop_last()[j],
            ) by {
                assert(s.drop_last()[j] == s[j]);
            }
        }
        lemma_digits_grow(s.drop_last(), k);
        assert(digits_value(s) >= digits_value(s.drop_last()) * 10);
    } else {
        assert(s.take(k as int) =~= s);
    }
}

pub open spec fn as_position(o: Option<usize>) -> Option<int> {
    match o {
        Some(s) => Some(s as int),
        None => None,
    }
}

/// Records in `result` the placeholder `chars[start + 1..close]`, whose `{`
/// stands at `start` and `}` at `close`.
fn note_placeholder_exec(result: &mut ValidationResult, chars: &Vec<char>, start: usize, close: usize)
    requires
        start < close <= chars@.len(),
    ensures
        final(result).facts() == note_placeholder(
            old(result).facts(),
            chars@.subrange(start + 1, close as int),
            start as int,
        ),
{
    let ghost content = chars@.subrange(start + 1, close as int);
    if start + 1 == close {
        result.errors.push(TemplateError::InvalidPlaceholder(start));
        return ;
    }
    match parse_digits(chars, start + 1, close, usize::MAX) {
        Some(n) => {
            result.placeholders_found.insert(n);
            let m = match result.max_placeholder {
                Some(m) => if m >= n {
                    m
                } else {
                    n
                },
                None => n,
            };
            result.max_placeholder = Some(m);
        },
        None => {
            let mut w: Vec<char> = Vec::new();
            push_str(&mut w, "Non-numeric placeholder '{");
            push_range(&mut w, chars, start + 1, close);
            push_str(&mut w, "}' at position ");
            push_decimal(&mut w, start);
            let ws = string_from_chars(&w);
            result.warnings.push(ws);
            assert(views(result.warnings@) =~= views(old(result).warnings@).push(
                foreign_warning(content, start as int),
            ));
        },
    }
}

/// Scans a template left to right and reports its placeholders, errors and
/// warnings.
pub fn parse_template(template: &str) -> (r: ValidationResult)
    ensures
        r.facts() == template_facts(template@),
{
    let chars = chars_of(template);
    let mut result = ValidationResult {
        errors: Vec::new(),
        warnings: Vec::new(),
        placeholders_found: HashSet::new(),
        max_placeholder: None,
    };
    assert(result.facts() =~= no_facts()) by {
        assert(views(result.warnings@) =~= Seq::<Seq<char>>::empty());
    }
    let n = chars.len();
    let mut i: usize = 0;
    let mut open: Option<usize> = None;
    while i < n
        invariant
            n == chars@.len(),
            chars@ == template@,
            i <= n,
            match open {
                Some(s) => s < i,
                None => true,
            },
            scan_from(chars@, i as int, as_position(open), result.facts())
                == template_facts(template@),
        decreases n - i,
    {
        match open {
            Some(s) => {
                if chars[i] == '}' {
                    note_placeholder_exec(&mut result, &chars, s, i);
                    open = None;
                }
                i += 1;
            },
            None => {
                if chars[i] == '{' {
                    if i + 1 < n && chars[i + 1] == '{' {
                        i += 2;
                    } else {
                        open = Some(i);
                        i += 1;
                    }
                } else if chars[i] == '}' {
                    if i + 1 < n && chars[i + 1] == '}' {
                        i += 2;
                    } else {
                        let mut w: Vec<char> = Vec::new();
                        push_str(&mut w, "Unmatched '}' at position ");
                        push_decimal(&mut w, i);
                        let ws = string_from_chars(&w);
                        let ghost before = result.facts();
                        result.warnings.push(ws);
                        assert(views(result.warnings@) =~= before.warnings.push(
                            unmatched_warning(i as int),
                        ));
                        i += 1;
                    }
                } else {
                    i += 1;
                }
            },
        }
    }
    if let Some(s) = open {
        result.errors.push(TemplateError::UnclosedPlaceholder(s));
    }
    result
}

/// The texts of `errs` joined by `"; "`.
pub open spec fn joined_errors(errs: Seq<TemplateError>) -> Seq<char>
    decreases errs.len(),
{
    if errs.len() == 0 {
        Seq::empty()
    } else if errs.len() == 1 {
        error_text(errs[0])
    } else {
        joined_errors(errs.drop_last()) + "; "@ + error_text(errs.last())
    }
}

pub open spec fn unused_argument_text(i: nat) -> Seq<char> {
    "Argument "@ + decimal(i) + " is not used in template (missing {"@ + decimal(i) + "})"@
}

/// One text for each index in `from..k` that `found` lacks, in order.
pub open spec fn missing_indices(found: Set<usize>, from: nat, k: nat) -> Seq<Seq<char>>
    decreases k - from,
{
    if from >= k {
        Seq::empty()
    } else if found.contains(from as usize) {
        missing_indices(found, from + 1, k)
    } else {
        seq![unused_argument_text(from)] + missing_indices(found, from + 1, k)
    }
}

pub open spec fn arguments_zero_text() -> Seq<char> {
    "Template has placeholders but no arguments provided"@
}

pub open spec fn no_placeholders_text(k: nat) -> Seq<char> {
    "Template has no placeholders ({0}, {1}, etc.) but "@ + decimal(k)
        + " argument(s) provided. Did you put the template in the wrong position? Usage: llm('template with {0}', arg0, arg1, ...)"@
}

pub open spec fn out_of_range_text(m: nat, k: nat) -> Seq<char> {
    "Template references {"@ + decimal(m) + "} but only "@ + decimal(k)
        + " argument(s) provided (indices 0-"@ + decimal((k - 1) as nat) + ")"@
}

/// What validating `t` against `k` arguments gives: the warnings, or the
/// error.
pub open spec fn validation(t: Seq<char>, k: nat, strict: bool) -> Result<
    Seq<Seq<char>>,
    Seq<char>,
> {
    let f = template_facts(t);
    if f.errors.len() > 0 {
        Err(joined_errors(f.errors))
    } else if k == 0 {
        if f.found.is_empty() {
            Ok(f.warnings)
        } else {
            Err(arguments_zero_text())
        }
    } else if f.found.is_empty() {
        Err(no_placeholders_text(k))
    } else if f.max is Some && f.max->0 >= k {
        Err(out_of_range_text(f.max->0 as nat, k))
    } else {
        let missing = missing_indices(f.found, 0, k);
        if strict && missing.len() > 0 {
            Err(missing[0])
        } else {
            Ok(f.warnings + missing)
        }
    }
}

pub open spec fn outcome_view(r: Result<Vec<String>, String>) -> Result<Seq<Seq<char>>, Seq<char>> {
    match r {
        Ok(w) => Ok(views(w@)),
        Err(e) => Err(e@),
    }
}

/// The texts of `errs` joined by `"; "`.
fn join_errors(errs: &Vec<TemplateError>) -> (r: String)
    ensures
        r@ == joined_errors(errs@),
{
    let mut out: Vec<char> = Vec::new();
    let mut i: usize = 0;
    while i < errs.len()
        invariant
            i <= errs@.len(),
            out@ == joined_errors(errs@.take(i as int)),
        decreases errs@.len() - i,
    {
        let m = errs[i].message();
        let mc = chars_of(m.as_str());
        let ghost before = out@;
        if i > 0 {
            push_str(&mut out, "; ");
        }
        push_range(&mut out, &mc, 0, mc.len());
        assert(mc@.subrange(0, mc@.len() as int) =~= mc@);
        assert(errs@.take(i + 1).drop_last() =~= errs@.take(i as int));
        assert(errs@.take(i + 1).last() == errs@[i as int]);
        i += 1;
    }
    assert(errs@.take(i as int) =~= errs@);
    string_from_chars(&out)
}

fn decimal_text(prefix: &str, n: usize, suffix: &str) -> (r: Vec<char>)
    ensures
        r@ == prefix@ + decimal(n as nat) + suffix@,
{
    let mut out: Vec<char> = Vec::new();
    push_str(&mut out, prefix);
    push_decimal(&mut out, n);
    push_str(&mut out, suffix);
    assert(out@ =~= prefix@ + decimal(n as nat) + suffix@);
    out
}

/// The text for an argument that no placeholder uses.
fn unused_argument(i: usize) -> (r: String)
    ensures
        r@ == unused_argument_text(i as nat),
{
    let mut out = decimal_text("Argument ", i, " is not used in template (missing {");
    push_decimal(&mut out, i);
    push_str(&mut out, "})");
    string_from_chars(&out)
}

/// Checks a template against the number of arguments it will be filled with.
/// Parse errors and out-of-range placeholders are errors; an argument that
/// no placeholder uses is an error when `strict` and a warning otherwise; a
/// template without any placeholder is an error whenever arguments are given.
pub fn validate_template(template: &str, arg_count: usize, strict: bool) -> (r: Result<
    Vec<String>,
    String,
>)
    ensures
        outcome_view(r) == validation(template@, arg_count as nat, strict),
{
    let result = parse_template(template);
    let ghost f = result.facts();
    if result.errors.len() > 0 {
        return Err(join_errors(&result.errors));
    }
    if arg_count == 0 {
        if !result.placeholders_found.is_empty() {
            return Err("Template has placeholders but no arguments provided".to_owned());
        }
        return Ok(result.warnings);
    }
    if result.placeholders_found.is_empty() {
        let mut out = decimal_text("Template has no placeholders ({0}, {1}, etc.) but ", arg_count,
            " argument(s) provided. Did you put the template in the wrong position? Usage: llm('template with {0}', arg0, arg1, ...)");
        return Err(string_from_chars(&out));
    }
    if let Some(max) = result.max_placeholder {
        if max >= arg_count {
            let mut out = decimal_text("Template references {", max, "} but only ");
            push_decimal(&mut out, arg_count);
            push_str(&mut out, " argument(s) provided (indices 0-");
            push_decimal(&mut out, arg_count - 1);
            push_str(&mut out, ")");
            return Err(string_from_chars(&out));
        }
    }
    let mut warnings = result.warnings;
    let ghost base = views(warnings@);
    let mut i: usize = 0;
    while i < arg_count
        invariant
            i <= arg_count,
            f == template_facts(template@),
            f == result.facts(),
            f.errors.len() == 0,
            arg_count > 0,
            !f.found.is_empty(),
            !(f.max is Some && f.max->0 >= arg_count),
            base == f.warnings,
            views(warnings@) + missing_indices(f.found, i as nat, arg_count as nat) == base
                + missing_indices(f.found, 0, arg_count as nat),
            strict ==> views(warnings@) == base,
            strict ==> missing_indices(f.found, 0, arg_count as nat) == missing_indices(
                f.found,
                i as nat,
                arg_count as nat,
            ),
        decreases arg_count - i,
    {
        if !result.placeholders_found.contains(&i) {
            let msg = unused_argument(i);
            if strict {
                assert(missing_indices(f.found, i as nat, arg_count as nat)[0]
                    == unused_argument_text(i as nat));
                return Err(msg);
            }
            let ghost before = views(warnings@);
            warnings.push(msg);
            assert(views(warnings@) =~= before.push(unused_argument_text(i as nat)));
            assert(before + missing_indices(f.found, i as nat, arg_count as nat) =~= before.push(
                unused_argument_text(i as nat),
            ) + missing_indices(f.found, (i + 1) as nat, arg_count as nat));
        }
        i += 1;
    }
    assert(missing_indices(f.found, i as nat, arg_count as nat) =~= Seq::<Seq<char>>::empty());
    assert(views(warnings@) =~= f.warnings + missing_indices(f.found, 0, arg_count as nat));
    Ok(warnings)
}

/// What validating a fold template gives: it must use `{0}` and `{1}`; a
/// larger placeholder is a warning.
pub open spec fn fold_validation(t: Seq<char>) -> Result<Seq<Seq<char>>, Seq<char>> {
    let f = template_facts(t);
    if f.errors.len() > 0 {
        Err(joined_errors(f.errors))
    } else if !f.found.contains(0) {
        Err("Fold template must contain {0} for the first item"@)
    } else if !f.found.contains(1) {
        Err("Fold template must contain {1} for the second item"@)
    } else if f.max is Some && f.max->0 > 1 {
        Ok(
            f.warnings.push(
                "Fold template has placeholder {"@ + decimal(f.max->0 as nat)
                    + "} but only {0} and {1} are used"@,
            ),
        )
    } else {
        Ok(f.warnings)
    }
}

/// What validating a map template gives: it must use `{0}`; a larger
/// placeholder is a warning.
pub open spec fn map_validation(t: Seq<char>) -> Result<Seq<Seq<char>>, Seq<char>> {
    let f = template_facts(t);
    if f.errors.len() > 0 {
        Err(joined_errors(f.errors))
    } else if !f.found.contains(0) {
        Err("Map template must contain {0} for the input value"@)
    } else if f.max is Some && f.max->0 > 0 {
        Ok(
            f.warnings.push(
                "Map template has placeholder {"@ + decimal(f.max->0 as nat)
                    + "} but only {0} is used"@,
            ),
        )
    } else {
        Ok(f.warnings)
    }
}

/// Checks a template that combines two values: `{0}` and `{1}` must both
/// occur.
pub fn validate_fold_template(template: &str) -> (r: Result<Vec<String>, String>)
    ensures
        outcome_view(r) == fold_validation(template@),
{
    let result = parse_template(template);
    if result.errors.len() > 0 {
        return Err(join_errors(&result.errors));
    }
    if !result.placeholders_found.contains(&0) {
        return Err("Fold template must contain {0} for the first item".to_owned());
    }
    if !result.placeholders_found.contains(&1) {
        return Err("Fold template must contain {1} for the second item".to_owned());
    }
    let mut warnings = result.warnings;
    if let Some(max) = result.max_placeholder {
        if max > 1 {
            let w = decimal_text("Fold template has placeholder {", max, "} but only {0} and {1} are used");
            let ghost before = views(warnings@);
            warnings.push(string_from_chars(&w));
            assert(views(warnings@) =~= before.push(w@));
        }
    }
    Ok(warnings)
}

/// Checks a template that transforms one value: `{0}` must occur.
pub fn validate_map_template(template: &str) -> (r: Result<Vec<String>, String>)
    ensures
        outcome_view(r) == map_validation(template@),
{
    let result = parse_template(template);
    if result.errors.len() > 0 {
        return Err(join_errors(&result.errors));
    }
    if !result.placeholders_found.contains(&0) {
        return Err("Map template must contain {0} for the input value".to_owned());
    }
    let mut warnings = result.warnings;
    if let Some(max) = result.max_placeholder {
        if max > 0 {
            let w = decimal_text("Map template has placeholder {", max, "} but only {0} is used");
            let ghost before = views(warnings@);
            warnings.push(string_from_chars(&w));
            assert(views(warnings@) =~= before.push(w@));
        }
    }
    Ok(warnings)
}

/// A consistent record of the largest placeholder: none when nothing was
/// found, else one of the indices found and at least every other.
pub open spec fn max_is_largest(f: TemplateFacts) -> bool {
    match f.max {
        None => f.found.is_empty(),
        Some(m) => f.found.contains(m) && forall|x: usize| #[trigger] f.found.contains(x) ==> x <= m,
    }
}

pub proof fn lemma_scan_keeps_max(t: Seq<char>, i: int, open: Option<int>, f: TemplateFacts)
    requires
        max_is_largest(f),
    ensures
        max_is_largest(scan_from(t, i, open, f)),
    decreases t.len() - i,
{
    if i < 0 || i >= t.len() {
    } else {
        match open {
            Some(s) => if t[i] == '}' {
                let g = note_placeholder(f, t.subrange(s + 1, i), s);
                assert(max_is_largest(g)) by {
                    if g.found != f.found {
                        assert forall|x: usize| #[trigger] g.found.contains(x) implies x <= g.max->0 by {
                            if f.found.contains(x) {
                            }
                        }
                    }
                }
                lemma_scan_keeps_max(t, i + 1, None, g);
            } else {
                lemma_scan_keeps_max(t, i + 1, open, f);
            },
            None => if t[i] == '{' {
                if i + 1 < t.len() && t[i + 1] == '{' {
                    lemma_scan_keeps_max(t, i + 2, None, f);
                } else {
                    lemma_scan_keeps_max(t, i + 1, Some(i), f);
                }
            } else if t[i] == '}' {
                if i + 1 < t.len() && t[i + 1] == '}' {
                    lemma_scan_keeps_max(t, i + 2, None, f);
                } else {
                    lemma_scan_keeps_max(
                        t,
                        i + 1,
                        None,
                        TemplateFacts { warnings: f.warnings.push(unmatched_warning(i)), ..f },
                    );
                }
            } else {
                lemma_scan_keeps_max(t, i + 1, None, f);
            },
        }
    }
}

/// A template whose scan finds no error, no warning, and exactly the
/// placeholders `{0}` to `{k-1}` validates against `k` arguments in strict
/// mode, with no warning.
pub proof fn lemma_exact_placeholders_validate(t: Seq<char>, k: usize)
    requires
        template_facts(t).errors.len() == 0,
        template_facts(t).warnings.len() == 0,
        template_facts(t).found == Set::new(|i: usize| i < k),
    ensures
        validation(t, k as nat, true) == Ok::<Seq<Seq<char>>, Seq<char>>(Seq::empty()),
{
    let f = template_facts(t);
    assert(max_is_largest(no_facts())) by {
        assert(no_facts().found =~= Set::<usize>::empty());
    }
    lemma_scan_keeps_max(t, 0, None, no_facts());
    assert(f.warnings =~= Seq::<Seq<char>>::empty());
    if k == 0 {
        assert(f.found =~= Set::<usize>::empty());
    } else {
        assert(f.found.contains(0));
        assert(!f.found.is_empty());
        lemma_none_missing(f.found, 0, k as nat);
        if f.max is Some {
            assert(f.found.contains(f.max->0));
        }
        assert(f.warnings + missing_indices(f.found, 0, k as nat) =~= Seq::<Seq<char>>::empty());
    }
}

proof fn lemma_none_missing(found: Set<usize>, from: nat, k: nat)
    requires
        forall|i: usize| i < k ==> #[trigger] found.contains(i),
        k <= usize::MAX + 1,
    ensures
        missing_indices(found, from, k) == Seq::<Seq<char>>::empty(),
    decreases k - from,
{
    if from < k {
        assert(found.contains(from as usize));
        lemma_none_missing(found, from + 1, k);
    }
}

/// The end of the run of digits in `s` that starts at `i`.
pub open spec fn digit_run_end(s: Seq<char>, i: int) -> int
    decreases s.len() - i,
{
    if i < 0 || i >= s.len() || !is_digit(s[i]) {
        i
    } else {
        digit_run_end(s, i + 1)
    }
}

/// A range placeholder's content `a:b<sep>` or `a:<sep>`: the first index
/// `a`, the number of values `b` (all the rest where it is left out), and the
/// separator.
pub open spec fn range_of(c: Seq<char>) -> Option<(nat, Option<nat>, Seq<char>)> {
    let a = digit_run_end(c, 0);
    if 0 < a && a < c.len() && c[a] == ':' && digits_value(c.take(a)) <= usize::MAX {
        let b = digit_run_end(c, a + 1);
        Some(
            (
                digits_value(c.take(a)),
                if b > a + 1 {
                    Some(digits_value(c.subrange(a + 1, b)))
                } else {
                    None
                },
                c.subrange(b, c.len() as int),
            ),
        )
    } else {
        None
    }
}

/// `vals` joined by `sep`.
pub open spec fn joined(vals: Seq<Seq<char>>, sep: Seq<char>) -> Seq<char>
    decreases vals.len(),
{
    if vals.len() == 0 {
        Seq::empty()
    } else if vals.len() == 1 {
        vals[0]
    } else {
        joined(vals.drop_last(), sep) + sep + vals.last()
    }
}

/// What the placeholder `{c}` opening at `start` stands for: the value it
/// names, the run of values a range names joined by its separator, or
/// itself where it is of another syntax.
pub open spec fn substitution(c: Seq<char>, start: int, vals: Seq<Seq<char>>, keep: bool) -> Result<
    Seq<char>,
    TemplateError,
> {
    if c.len() == 0 {
        Err(TemplateError::InvalidPlaceholder(start as usize))
    } else {
        match index_of(c) {
            Some(n) => if n < vals.len() {
                Ok(vals[n as int])
            } else if keep {
                Ok(seq!['{'] + c + seq!['}'])
            } else {
                Err(TemplateError::PlaceholderOutOfRange(n, vals.len() as usize))
            },
            None => match range_of(c) {
                Some((a, count, sep)) => {
                    let end = match count {
                        Some(b) => a + b,
                        None => vals.len(),
                    };
                    if (a > vals.len() || end > vals.len()) && keep {
                        Ok(seq!['{'] + c + seq!['}'])
                    } else if a > vals.len() || end > vals.len() {
                        Err(
                            TemplateError::PlaceholderOutOfRange(
                                (if a > vals.len() {
                                    a
                                } else {
                                    vals.len()
                                }) as usize,
                                vals.len() as usize,
                            ),
                        )
                    } else {
                        Ok(joined(vals.subrange(a as int, end as int), sep))
                    }
                },
                None => Ok(seq!['{'] + c + seq!['}']),
            },
        }
    }
}

pub open spec fn prepend(p: Seq<char>, r: Result<Seq<char>, TemplateError>) -> Result<
    Seq<char>,
    TemplateError,
> {
    match r {
        Ok(x) => Ok(p + x),
        Err(e) => Err(e),
    }
}

/// The expansion of `t` from position `i` on, where `open` is the position
/// of the `{` of a placeholder still being read.
pub open spec fn expand_from(
    t: Seq<char>,
    i: int,
    open: Option<int>,
    vals: Seq<Seq<char>>,
    keep: bool,
) -> Result<
    Seq<char>,
    TemplateError,
>
    decreases t.len() - i,
{
    if i < 0 || i >= t.len() {
        match open {
            Some(s) => Err(TemplateError::UnclosedPlaceholder(s as usize)),
            None => Ok(Seq::empty()),
        }
    } else {
        match open {
            Some(s) => if t[i] == '}' {
                match substitution(t.subrange(s + 1, i), s, vals, keep) {
                    Ok(p) => prepend(p, expand_from(t, i + 1, None, vals, keep)),
                    Err(e) => Err(e),
                }
            } else {
                expand_from(t, i + 1, open, vals, keep)
            },
            None => if t[i] == '{' {
                if i + 1 < t.len() && t[i + 1] == '{' {
                    prepend(seq!['{'], expand_from(t, i + 2, None, vals, keep))
                } else {
                    expand_from(t, i + 1, Some(i), vals, keep)
                }
            } else if t[i] == '}' {
                if i + 1 < t.len() && t[i + 1] == '}' {
                    prepend(seq!['}'], expand_from(t, i + 2, None, vals, keep))
                } else {
                    prepend(seq!['}'], expand_from(t, i + 1, None, vals, keep))
                }
            } else {
                prepend(seq![t[i]], expand_from(t, i + 1, None, vals, keep))
            },
        }
    }
}

/// The template with each placeholder replaced, or the first error met
/// scanning left to right.
pub open spec fn expansion(t: Seq<char>, vals: Seq<Seq<char>>) -> Result<Seq<char>, TemplateError> {
    expand_from(t, 0, None, vals, false)
}

/// As `expansion`, except that a placeholder naming values beyond those
/// given stays as it is: what map and fold templates get, where such a
/// placeholder only draws a warning.
pub open spec fn filling(t: Seq<char>, vals: Seq<Seq<char>>) -> Result<Seq<char>, TemplateError> {
    expand_from(t, 0, None, vals, true)
}

pub open spec fn expansion_view(r: Result<String, TemplateError>) -> Result<Seq<char>, TemplateError> {
    match r {
        Ok(s) => Ok(s@),
        Err(e) => Err(e),
    }
}

/// The end of the run of digits in `s[from..to]` that starts at `from`.
fn digit_run(s: &Vec<char>, from: usize, to: usize, base: usize) -> (r: usize)
    requires
        base <= from <= to <= s@.len(),
    ensures
        from <= r <= to,
        r - base == digit_run_end(s@.subrange(base as int, to as int), from - base),
{
    let ghost c = s@.subrange(base as int, to as int);
    let mut j = from;
    while j < to && '0' <= s[j] && s[j] <= '9'
        invariant
            base <= from <= j <= to <= s@.len(),
            c == s@.subrange(base as int, to as int),
            digit_run_end(c, j - base) == digit_run_end(c, from - base),
        decreases to - j,
    {
        assert(c[j - base] == s@[j as int]);
        j += 1;
    }
    if j < to {
        assert(c[j - base] == s@[j as int]);
    }
    j
}

/// Appends `vals[a..end]` joined by `sep` to `out`.
fn push_joined(out: &mut Vec<char>, values: &Vec<String>, a: usize, end: usize, sep: &Vec<char>, sep_from: usize, sep_to: usize)
    requires
        a <= end <= values@.len(),
        sep_from <= sep_to <= sep@.len(),
    ensures
        final(out)@ == old(out)@ + joined(
            views(values@).subrange(a as int, end as int),
            sep@.subrange(sep_from as int, sep_to as int),
        ),
{
    let ghost vs = views(values@);
    let ghost sp = sep@.subrange(sep_from as int, sep_to as int);
    let mut k = a;
    assert(vs.subrange(a as int, a as int) =~= Seq::<Seq<char>>::empty());
    while k < end
        invariant
            a <= k <= end <= values@.len(),
            vs == views(values@),
            sp == sep@.subrange(sep_from as int, sep_to as int),
            sep_from <= sep_to <= sep@.len(),
            out@ == old(out)@ + joined(vs.subrange(a as int, k as int), sp),
        decreases end - k,
    {
        let ghost before = out@;
        if k > a {
            push_range(out, sep, sep_from, sep_to);
        }
        let vc = chars_of(values[k].as_str());
        push_range(out, &vc, 0, vc.len());
        proof {
            assert(vc@.subrange(0, vc@.len() as int) =~= vc@);
            let next = vs.subrange(a as int, k + 1);
            assert(next.drop_last() =~= vs.subrange(a as int, k as int));
            assert(next.last() == vs[k as int]);
            if k == a {
                assert(next.len() == 1);
                assert(joined(vs.subrange(a as int, k as int), sp) =~= Seq::<char>::empty());
            }
        }
        k += 1;
        assert(out@ =~= old(out)@ + joined(vs.subrange(a as int, k as int), sp));
    }
}

/// Appends to `out` what the placeholder `chars[start + 1..close]` stands
/// for.
fn push_verbatim(out: &mut Vec<char>, chars: &Vec<char>, start: usize, close: usize)
    requires
        start < close <= chars@.len(),
    ensures
        final(out)@ == old(out)@ + (seq!['{'] + chars@.subrange(start + 1, close as int) + seq!['}']),
{
    out.push('{');
    push_range(out, chars, start + 1, close);
    out.push('}');
    assert(out@ =~= old(out)@ + (seq!['{'] + chars@.subrange(start + 1, close as int) + seq!['}']));
}

fn substitute(
    out: &mut Vec<char>,
    chars: &Vec<char>,
    start: usize,
    close: usize,
    values: &Vec<String>,
    keep: bool,
) -> (r: Result<(), TemplateError>)
    requires
        start < close <= chars@.len(),
    ensures
        match substitution(chars@.subrange(start + 1, close as int), start as int, views(values@), keep) {
            Ok(p) => r is Ok && final(out)@ == old(out)@ + p,
            Err(e) => r == Err::<(), TemplateError>(e),
        },
{
    let ghost c = chars@.subrange(start + 1, close as int);
    let ghost vs = views(values@);
    let n = values.len();
    if start + 1 == close {
        return Err(TemplateError::InvalidPlaceholder(start));
    }
    match parse_digits(chars, start + 1, close, usize::MAX) {
        Some(i) => {
            if i < n {
                let vc = chars_of(values[i].as_str());
                push_range(out, &vc, 0, vc.len());
                assert(vc@.subrange(0, vc@.len() as int) =~= vc@);
                return Ok(());
            } else if keep {
                push_verbatim(out, chars, start, close);
                return Ok(());
            } else {
                return Err(TemplateError::PlaceholderOutOfRange(i, n));
            }
        },
        None => {},
    }
    let a_end = digit_run(chars, start + 1, close, start + 1);
    if a_end > start + 1 && a_end < close && chars[a_end] == ':' {
        assert(c[a_end - (start + 1)] == chars@[a_end as int]);
        assert(c.take(a_end - (start + 1)) =~= chars@.subrange(start + 1, a_end as int));
        match parse_digits(chars, start + 1, a_end, usize::MAX) {
            Some(a) => {
                let b_end = digit_run(chars, a_end + 1, close, start + 1);
                assert(c.subrange(b_end - (start + 1), c.len() as int) =~= chars@.subrange(b_end as int, close as int));
                assert(c.subrange(a_end + 1 - (start + 1), b_end - (start + 1)) =~= chars@.subrange(a_end + 1, b_end as int));
                let end: usize;
                if b_end > a_end + 1 {
                    match parse_digits(chars, a_end + 1, b_end, n) {
                        Some(b) => {
                            if a > n || b > n - a {
                                if keep {
                                    push_verbatim(out, chars, start, close);
                                    return Ok(());
                                }
                                return Err(TemplateError::PlaceholderOutOfRange(if a > n { a } else { n }, n));
                            }
                            end = a + b;
                        },
                        None => {
                            proof {
                                lemma_digit_run_digits(c, a_end + 1 - (start + 1));
                            }
                            if keep {
                                push_verbatim(out, chars, start, close);
                                return Ok(());
                            }
                            return Err(TemplateError::PlaceholderOutOfRange(if a > n { a } else { n }, n));
                        },
                    }
                } else {
                    if a > n {
                        if keep {
                            push_verbatim(out, chars, start, close);
                            return Ok(());
                        }
                        return Err(TemplateError::PlaceholderOutOfRange(a, n));
                    }
                    end = n;
                }
                push_joined(out, values, a, end, chars, b_end, close);
                return Ok(());
            },
            None => {
                proof {
                    lemma_digit_run_digits(c, 0);
                }
            },
        }
    }
    push_verbatim(out, chars, start, close);
    Ok(())
}

proof fn lemma_prepend_assoc(a: Seq<char>, b: Seq<char>, r: Result<Seq<char>, TemplateError>)
    ensures
        prepend(a, prepend(b, r)) == prepend(a + b, r),
{
    if let Ok(x) = r {
        assert(a + (b + x) =~= (a + b) + x);
    }
}

/// The characters from `i` up to the end of their digit run are digits.
proof fn lemma_digit_run_digits(s: Seq<char>, i: int)
    requires
        0 <= i <= s.len(),
    ensures
        i <= digit_run_end(s, i) <= s.len(),
        all_digits(s.subrange(i, digit_run_end(s, i))),
    decreases s.len() - i,
{
    if i < s.len() && is_digit(s[i]) {
        lemma_digit_run_digits(s, i + 1);
        let e = digit_run_end(s, i);
        assert forall|j: int| 0 <= j < e - i implies is_digit(#[trigger] s.subrange(i, e)[j]) by {
            if j > 0 {
                assert(s.subrange(i, e)[j] == s.subrange(i + 1, e)[j - 1]);
            }
        }
    }
}

/// Expands a template; `keep` leaves placeholders that name missing values
/// as they are instead of failing.
fn expand_with(template: &str, values: &Vec<String>, keep: bool) -> (r: Result<String, TemplateError>)
    ensures
        expansion_view(r) == expand_from(template@, 0, None, views(values@), keep),
{
    let chars = chars_of(template);
    let ghost vs = views(values@);
    let n = chars.len();
    let mut out: Vec<char> = Vec::new();
    let mut i: usize = 0;
    let mut open: Option<usize> = None;
    while i < n
        invariant
            n == chars@.len(),
            chars@ == template@,
            vs == views(values@),
            i <= n,
            match open {
                Some(s) => s < i,
                None => true,
            },
            prepend(out@, expand_from(chars@, i as int, as_position(open), vs, keep)) == expand_from(
                template@,
                0,
                None,
                vs,
                keep,
            ),
        decreases n - i,
    {
        let ghost before = out@;
        match open {
            Some(s) => {
                if chars[i] == '}' {
                    let step = substitute(&mut out, &chars, s, i, values, keep);
                    if let Err(e) = step {
                        return Err(e);
                    }
                    open = None;
                    proof {
                        let sub = substitution(chars@.subrange(s + 1, i as int), s as int, vs, keep);
                        assert(sub is Ok);
                        let p = sub->Ok_0;
                        assert(out@ == before + p);
                        assert(expand_from(chars@, i as int, Some(s as int), vs, keep) == prepend(p, expand_from(chars@, i + 1, None, vs, keep)));
                        lemma_prepend_assoc(before, p, expand_from(chars@, i + 1, None, vs, keep));
                    }
                }
                i += 1;
            },
            None => {
                if chars[i] == '{' {
                    if i + 1 < n && chars[i + 1] == '{' {
                        out.push('{');
                        proof {
                            lemma_prepend_assoc(before, seq!['{'], expand_from(chars@, i + 2, None, vs, keep));
                            assert(before + seq!['{'] =~= out@);
                        }
                        i += 2;
                    } else {
                        open = Some(i);
                        i += 1;
                    }
                } else if chars[i] == '}' {
                    out.push('}');
                    assert(before + seq!['}'] =~= out@);
                    if i + 1 < n && chars[i + 1] == '}' {
                        proof {
                            lemma_prepend_assoc(before, seq!['}'], expand_from(chars@, i + 2, None, vs, keep));
                        }
                        i += 2;
                    } else {
                        proof {
                            lemma_prepend_assoc(before, seq!['}'], expand_from(chars@, i + 1, None, vs, keep));
                        }
                        i += 1;
                    }
                } else {
                    let c = chars[i];
                    out.push(c);
                    proof {
                        assert(before + seq![c] =~= out@);
                        lemma_prepend_assoc(before, seq![c], expand_from(chars@, i + 1, None, vs, keep));
                    }
                    i += 1;
                }
            },
        }
    }
    if let Some(s) = open {
        return Err(TemplateError::UnclosedPlaceholder(s));
    }
    assert(out@ + Seq::<char>::empty() =~= out@);
    Ok(string_from_chars(&out))
}

/// Fills a template: each `{i}` becomes `values[i]` verbatim, each range
/// placeholder `{a:b<sep>}` becomes `values[a..a+b]` joined by `<sep>` (and
/// `{a:<sep>}` all values from `a` on), `{{` and `}}` become single braces,
/// and placeholders of any other syntax stay as they are. Fails on the first
/// placeholder, left to right, that is empty, unclosed or names a missing
/// value.
pub fn expand_template(template: &str, values: &Vec<String>) -> (r: Result<String, TemplateError>)
    ensures
        expansion_view(r) == expansion(template@, views(values@)),
{
    expand_with(template, values, false)
}

/// Fills a map or fold template as `expand_template` does, except that a
/// placeholder naming values beyond those given stays as it is.
pub fn fill_template(template: &str, values: &Vec<String>) -> (r: Result<String, TemplateError>)
    ensures
        expansion_view(r) == filling(template@, views(values@)),
{
    expand_with(template, values, true)
}

} // verus!
