//! Fan-out operators: one prompt per row with nulls passed through, the
//! splitting variant, the unfolding table function, and the batch map that
//! embeds a whole list of values in one prompt.
use crate::reduce::{map_prompts, map_prompts_exec, prefixed};
use crate::template::{expand_template, expansion, outcome_view, validate_template, validation, TemplateError};
use crate::text::{fragments, split_fragments, views};
use vstd::prelude::*;

verus! {

/// Why the prompts of a row batch could not be built.
#[derive(Debug, Clone)]
pub enum FanoutError {
    /// The template of the first complete row failed validation; its message.
    InvalidTemplate(String),
    /// A row's template could not be filled.
    Template(TemplateError),
}

/// Whether no cell of a row is null.
pub open spec fn row_complete(row: Seq<Option<String>>) -> bool {
    forall|i: int| 0 <= i < row.len() ==> (#[trigger] row[i]) is Some
}

/// The texts of a complete row's cells.
pub open spec fn cell_views(row: Seq<Option<String>>) -> Seq<Seq<char>> {
    Seq::new(row.len(), |i: int| row[i]->Some_0@)
}

/// A complete row's prompt: its first cell is the template, the others the
/// values it is filled with.
pub open spec fn row_prompt(row: Seq<Option<String>>) -> Result<Seq<char>, TemplateError> {
    expansion(cell_views(row)[0], cell_views(row).drop_first())
}

/// The prompts of the complete rows from `k` on, in order.
pub open spec fn fill_rows(rows: Seq<Vec<Option<String>>>, k: nat) -> Result<
    Seq<Seq<char>>,
    TemplateError,
>
    decreases rows.len() - k,
{
    if k >= rows.len() {
        Ok(Seq::empty())
    } else if row_complete(rows[k as int]@) {
        match row_prompt(rows[k as int]@) {
            Ok(p) => prefixed(seq![p], fill_rows(rows, k + 1)),
            Err(e) => Err(e),
        }
    } else {
        fill_rows(rows, k + 1)
    }
}

/// The first complete row from `k` on.
pub open spec fn first_complete(rows: Seq<Vec<Option<String>>>, k: nat) -> Option<nat>
    decreases rows.len() - k,
{
    if k >= rows.len() {
        None
    } else if row_complete(rows[k as int]@) {
        Some(k)
    } else {
        first_complete(rows, k + 1)
    }
}

/// What validating the template of the first complete row against the
/// other cells gives (no warning where every row has a null).
pub open spec fn rows_validation(rows: Seq<Vec<Option<String>>>, width: nat) -> Result<
    Seq<Seq<char>>,
    Seq<char>,
> {
    match first_complete(rows, 0) {
        Some(f) => validation(cell_views(rows[f as int]@)[0], (width - 1) as nat, false),
        None => Ok(Seq::empty()),
    }
}

/// The prompts of a row batch.
#[derive(Debug, Clone)]
pub struct RowPrompts {
    /// One prompt per complete row, in row order.
    pub prompts: Vec<String>,
    /// Per row, whether it is complete (and so has a prompt).
    pub present: Vec<bool>,
    /// The validation's warnings.
    pub warnings: Vec<String>,
}

proof fn lemma_first_complete_after(rows: Seq<Vec<Option<String>>>, k: nat)
    ensures
        first_complete(rows, k) matches Some(f) ==> f >= k,
    decreases rows.len() - k,
{
    if k < rows.len() && !row_complete(rows[k as int]@) {
        lemma_first_complete_after(rows, k + 1);
    }
}

/// Whether every cell of `row` is present.
fn is_complete(row: &Vec<Option<String>>) -> (r: bool)
    ensures
        r == row_complete(row@),
{
    let mut i: usize = 0;
    while i < row.len()
        invariant
            i <= row@.len(),
            forall|j: int| 0 <= j < i ==> (#[trigger] row@[j]) is Some,
        decreases row@.len() - i,
    {
        if row[i].is_none() {
            return false;
        }
        i += 1;
    }
    true
}

/// The texts of a complete row's cells.
fn cells(row: &Vec<Option<String>>) -> (r: Vec<String>)
    requires
        row_complete(row@),
    ensures
        views(r@) == cell_views(row@),
{
    let mut out: Vec<String> = Vec::new();
    let mut i: usize = 0;
    while i < row.len()
        invariant
            row_complete(row@),
            i <= row@.len(),
            views(out@) == cell_views(row@).take(i as int),
        decreases row@.len() - i,
    {
        let ghost before = views(out@);
        match &row[i] {
            Some(s) => {
                out.push(s.clone());
                assert(views(out@) =~= before.push(s@));
            },
            None => {},
        }
        assert(row@[i as int] is Some);
        assert(views(out@) =~= cell_views(row@).take(i + 1));
        i += 1;
    }
    assert(cell_views(row@).take(i as int) =~= cell_views(row@));
    out
}

/// Builds one prompt per row of `rows`, each row being a template followed
/// by the values that fill it. Rows with a null cell get no prompt; the
/// template of the first complete row is validated (not strictly) against
/// the number of values, and its warnings are handed back.
pub fn prepare_row_prompts(rows: &Vec<Vec<Option<String>>>, width: usize) -> (r: Result<
    RowPrompts,
    FanoutError,
>)
    requires
        width >= 1,
        forall|k: int| 0 <= k < rows@.len() ==> (#[trigger] rows@[k])@.len() == width,
    ensures
        match rows_validation(rows@, width as nat) {
            Err(m) => r matches Err(FanoutError::InvalidTemplate(x)) && x@ == m,
            Ok(w) => match fill_rows(rows@, 0) {
                Ok(ps) => r matches Ok(rp) && views(rp.prompts@) == ps && views(rp.warnings@)
                    == w && rp.present@.len() == rows@.len() && rp.prompts@.len() == count_present(
                    rp.present@,
                    rows@.len() as int,
                ) && forall|k: int|
                    0 <= k < rows@.len() ==> rp.present@[k] == row_complete(
                        #[trigger] rows@[k]@,
                    ),
                Err(e) => r matches Err(FanoutError::Template(x)) && x == e,
            },
        },
{
    let mut prompts: Vec<String> = Vec::new();
    let mut present: Vec<bool> = Vec::new();
    let mut warnings: Vec<String> = Vec::new();
    let mut validated = false;
    let mut k: usize = 0;
    while k < rows.len()
        invariant
            width >= 1,
            forall|j: int| 0 <= j < rows@.len() ==> (#[trigger] rows@[j])@.len() == width,
            k <= rows@.len(),
            present@.len() == k,
            prompts@.len() == count_present(present@, k as int),
            forall|j: int| 0 <= j < k ==> present@[j] == row_complete(#[trigger] rows@[j]@),
            fill_rows(rows@, 0) == prefixed(views(prompts@), fill_rows(rows@, k as nat)),
            validated <==> (first_complete(rows@, 0) matches Some(f) && f < k),
            !validated ==> first_complete(rows@, 0) == first_complete(rows@, k as nat),
            validated ==> Ok::<Seq<Seq<char>>, Seq<char>>(views(warnings@)) == rows_validation(rows@, width as nat),
            !validated ==> warnings@.len() == 0,
        decreases rows@.len() - k,
    {
        let row = &rows[k];
        let complete = is_complete(row);
        let ghost before_present = present@;
        present.push(complete);
        proof {
            lemma_count_present_prefix(before_present, present@, k as int);
        }
        assert(row@ == rows@[k as int]@);
        proof {
            lemma_first_complete_after(rows@, (k + 1) as nat);
        }
        assert(first_complete(rows@, k as nat) == if complete {
            Some(k as nat)
        } else {
            first_complete(rows@, (k + 1) as nat)
        });
        if complete {
            let cs = cells(row);
            if !validated {
                let check = validate_template(cs[0].as_str(), width - 1, false);
                assert(outcome_view(check) == validation(cell_views(row@)[0], (width - 1) as nat, false));
                match check {
                    Ok(w) => {
                        warnings = w;
                    },
                    Err(m) => {
                        return Err(FanoutError::InvalidTemplate(m));
                    },
                }
                validated = true;
            }
            let mut args: Vec<String> = Vec::new();
            let mut j: usize = 1;
            while j < cs.len()
                invariant
                    1 <= j <= cs@.len(),
                    views(args@) == views(cs@).subrange(1, j as int),
                decreases cs@.len() - j,
            {
                let ghost before = views(args@);
                args.push(cs[j].clone());
                assert(views(args@) =~= before.push(cs@[j as int]@));
                assert(views(args@) =~= views(cs@).subrange(1, j + 1));
                j += 1;
            }
            assert(views(args@) =~= cell_views(row@).drop_first());
            match expand_template(cs[0].as_str(), &args) {
                Ok(p) => {
                    let ghost before = views(prompts@);
                    prompts.push(p);
                    proof {
                        assert(views(prompts@) =~= before.push(p@));
                        match fill_rows(rows@, (k + 1) as nat) {
                            Ok(rest) => {
                                assert(before + (seq![p@] + rest) =~= views(prompts@) + rest);
                            },
                            Err(_) => {},
                        }
                    }
                },
                Err(e) => {
                    return Err(FanoutError::Template(e));
                },
            }
        }
        k += 1;
    }
    assert(views(prompts@) + Seq::<Seq<char>>::empty() =~= views(prompts@));
    Ok(RowPrompts { prompts, present, warnings })
}

/// How many of the first `k` rows are present.
pub open spec fn count_present(present: Seq<bool>, k: int) -> nat
    decreases k,
{
    if k <= 0 {
        0
    } else {
        count_present(present, k - 1) + if present[k - 1] {
            1nat
        } else {
            0nat
        }
    }
}

/// Puts the batch's results back among the rows: a present row gets the
/// next result, in order, and a row with a null stays null.
pub fn splice_results(present: &Vec<bool>, results: &Vec<String>) -> (r: Vec<Option<String>>)
    requires
        results@.len() == count_present(present@, present@.len() as int),
    ensures
        r@.len() == present@.len(),
        forall|k: int|
            0 <= k < present@.len() ==> if present@[k] {
                (#[trigger] r@[k]) matches Some(s) && s == results@[count_present(present@, k) as int]
            } else {
                r@[k] is None
            },
{
    let mut out: Vec<Option<String>> = Vec::new();
    let total = results.len();
    let mut next: usize = 0;
    let mut k: usize = 0;
    while k < present.len()
        invariant
            total == results@.len(),
            k <= present@.len(),
            results@.len() == count_present(present@, present@.len() as int),
            out@.len() == k,
            next == count_present(present@, k as int),
            forall|j: int|
                0 <= j < k ==> if present@[j] {
                    (#[trigger] out@[j]) matches Some(s) && s == results@[count_present(present@, j) as int]
                } else {
                    out@[j] is None
                },
        decreases present@.len() - k,
    {
        proof {
            lemma_count_present_grows(present@, k + 1, present@.len() as int);
        }
        assert(count_present(present@, k + 1) == next + if present@[k as int] {
            1nat
        } else {
            0nat
        });
        if present[k] {
            out.push(Some(results[next].clone()));
            next += 1;
        } else {
            out.push(None);
        }
        k += 1;
    }
    out
}

proof fn lemma_count_present_prefix(a: Seq<bool>, b: Seq<bool>, k: int)
    requires
        0 <= k <= a.len(),
        a.len() < b.len(),
        forall|j: int| 0 <= j < a.len() ==> a[j] == b[j],
    ensures
        count_present(a, k) == count_present(b, k),
    decreases k,
{
    if k > 0 {
        lemma_count_present_prefix(a, b, k - 1);
    }
}

proof fn lemma_count_present_grows(present: Seq<bool>, a: int, b: int)
    requires
        0 <= a <= b <= present.len(),
    ensures
        count_present(present, a) <= count_present(present, b),
        a >= 1 && present[a - 1] ==> count_present(present, a - 1) < count_present(present, b),
    decreases b - a,
{
    if a < b {
        lemma_count_present_grows(present, a, b - 1);
    }
}

/// The fragments of each row's response, cut at that row's delimiter; a
/// null row stays null.
pub fn split_results(spliced: &Vec<Option<String>>, delimiters: &Vec<String>) -> (r: Vec<
    Option<Vec<String>>,
>)
    requires
        delimiters@.len() == spliced@.len(),
    ensures
        r@.len() == spliced@.len(),
        forall|k: int|
            0 <= k < spliced@.len() ==> match spliced@[k] {
                Some(t) => (#[trigger] r@[k]) matches Some(v) && views(v@) == fragments(
                    t@,
                    delimiters@[k]@,
                ),
                None => r@[k] is None,
            },
{
    let mut out: Vec<Option<Vec<String>>> = Vec::new();
    let mut k: usize = 0;
    while k < spliced.len()
        invariant
            k <= spliced@.len(),
            delimiters@.len() == spliced@.len(),
            out@.len() == k,
            forall|j: int|
                0 <= j < k ==> match spliced@[j] {
                    Some(t) => (#[trigger] out@[j]) matches Some(v) && views(v@) == fragments(
                        t@,
                        delimiters@[j]@,
                    ),
                    None => out@[j] is None,
                },
        decreases spliced@.len() - k,
    {
        match &spliced[k] {
            Some(t) => {
                out.push(Some(split_fragments(t.as_str(), delimiters[k].as_str())));
            },
            None => {
                out.push(None);
            },
        }
        k += 1;
    }
    out
}

/// The items a round of unfolding yields: each response cut into its
/// fragments, in order, or the responses as they are where the delimiter is
/// empty.
pub open spec fn unfolded(results: Seq<Seq<char>>, d: Seq<char>) -> Seq<Seq<char>>
    decreases results.len(),
{
    if d.len() == 0 {
        results
    } else if results.len() == 0 {
        Seq::empty()
    } else {
        unfolded(results.drop_last(), d) + fragments(results.last(), d)
    }
}

/// What the caller does next while a value is unfolded.
#[derive(Debug)]
pub enum UnfoldStep {
    /// Submit these prompts as one batch and hand the results, in order, to
    /// `Unfold::next`.
    Submit(Vec<String>),
    /// The items of the last round.
    Done(Vec<String>),
    Failed(TemplateError),
}

/// An unfolding between two batches: the template each item is mapped
/// through, the delimiter that cuts the responses, and the rounds still to
/// run, the one in flight included.
#[derive(Debug)]
pub struct Unfold {
    pub template: String,
    pub delimiter: String,
    pub rounds_left: usize,
}

/// What a round over `items` gives, with `rounds` rounds left: the items
/// themselves when none is, else the prompts mapping each of them.
pub open spec fn round_started(
    t: Seq<char>,
    d: Seq<char>,
    items: Seq<Seq<char>>,
    rounds: nat,
    m: Unfold,
    r: UnfoldStep,
) -> bool {
    if rounds == 0 {
        r matches UnfoldStep::Done(v) && views(v@) == items
    } else {
        match map_prompts(t, items, 0) {
            Ok(ps) => r matches UnfoldStep::Submit(v) && views(v@) == ps && m.template@ == t
                && m.delimiter@ == d && m.rounds_left == rounds,
            Err(e) => r matches UnfoldStep::Failed(x) && x == e,
        }
    }
}

fn unfold_round(template: &String, delimiter: &String, items: Vec<String>, rounds: usize) -> (r: (
    Unfold,
    UnfoldStep,
))
    ensures
        round_started(template@, delimiter@, views(items@), rounds as nat, r.0, r.1),
{
    let machine = Unfold {
        template: template.clone(),
        delimiter: delimiter.clone(),
        rounds_left: rounds,
    };
    if rounds == 0 {
        return (machine, UnfoldStep::Done(items));
    }
    match map_prompts_exec(template, &items) {
        Ok(prompts) => (machine, UnfoldStep::Submit(prompts)),
        Err(e) => (machine, UnfoldStep::Failed(e)),
    }
}

impl Unfold {
    /// Starts unfolding `value` for `iterations` rounds.
    pub fn start(template: &str, value: &str, delimiter: &str, iterations: usize) -> (r: (
        Unfold,
        UnfoldStep,
    ))
        ensures
            round_started(template@, delimiter@, seq![value@], iterations as nat, r.0, r.1),
    {
        let t = template.to_owned();
        let d = delimiter.to_owned();
        let v = value.to_owned();
        let items = vec![v];
        assert(views(items@) =~= seq![value@]);
        unfold_round(&t, &d, items, iterations)
    }

    /// Takes the responses of the round in flight and starts the next round
    /// over the items they yield.
    pub fn next(&self, results: Vec<String>) -> (r: (Unfold, UnfoldStep))
        requires
            self.rounds_left > 0,
        ensures
            round_started(
                self.template@,
                self.delimiter@,
                unfolded(views(results@), self.delimiter@),
                (self.rounds_left - 1) as nat,
                r.0,
                r.1,
            ),
    {
        let items: Vec<String>;
        if self.delimiter.as_str().unicode_len() == 0 {
            items = results;
        } else {
            let mut out: Vec<String> = Vec::new();
            let mut k: usize = 0;
            while k < results.len()
                invariant
                    k <= results@.len(),
                    self.delimiter@.len() > 0,
                    views(out@) == unfolded(views(results@.take(k as int)), self.delimiter@),
                decreases results@.len() - k,
            {
                let mut pieces = split_fragments(results[k].as_str(), self.delimiter.as_str());
                let ghost before = views(out@);
                let ghost added = views(pieces@);
                out.append(&mut pieces);
                proof {
                    assert(views(out@) =~= before + added);
                    let seen = views(results@.take(k + 1));
                    assert(seen.drop_last() =~= views(results@.take(k as int)));
                    assert(seen.last() == results@[k as int]@);
                }
                k += 1;
            }
            assert(results@.take(k as int) =~= results@);
            items = out;
        }
        unfold_round(&self.template, &self.delimiter, items, self.rounds_left - 1)
    }
}

/// The one prompt that embeds every value, or none for no value.
pub fn batch_map_prompt(template: &str, values: &Vec<String>) -> (r: Result<Option<String>, TemplateError>)
    ensures
        values@.len() == 0 ==> r matches Ok(None),
        values@.len() > 0 ==> match expansion(template@, views(values@)) {
            Ok(p) => r matches Ok(Some(s)) && s@ == p,
            Err(e) => r == Err::<Option<String>, TemplateError>(e),
        },
{
    if values.len() == 0 {
        return Ok(None);
    }
    match expand_template(template, values) {
        Ok(p) => Ok(Some(p)),
        Err(e) => Err(e),
    }
}

/// The text at position `i` of `s`, or the empty text past its end.
pub open spec fn at_or_empty(s: Seq<Seq<char>>, i: int) -> Seq<char> {
    if i < s.len() {
        s[i]
    } else {
        Seq::empty()
    }
}

/// Pairs each input with the fragment of the combined response at the same
/// position; the shorter side is padded with empty texts.
pub fn pair_outputs(values: &Vec<String>, output: &str, delimiter: &str) -> (r: (Vec<String>, Vec<String>))
    ensures
        r.0@.len() == r.1@.len(),
        r.0@.len() == if values@.len() >= fragments(output@, delimiter@).len() {
            values@.len()
        } else {
            fragments(output@, delimiter@).len()
        },
        forall|i: int| 0 <= i < r.0@.len() ==> (#[trigger] r.0@[i])@ == at_or_empty(views(values@), i),
        forall|i: int|
            0 <= i < r.1@.len() ==> (#[trigger] r.1@[i])@ == at_or_empty(fragments(output@, delimiter@), i),
{
    let outputs = split_fragments(output, delimiter);
    let len = if values.len() >= outputs.len() {
        values.len()
    } else {
        outputs.len()
    };
    let mut inputs: Vec<String> = Vec::new();
    let mut results: Vec<String> = Vec::new();
    let mut i: usize = 0;
    while i < len
        invariant
            i <= len,
            len == if values@.len() >= outputs@.len() {
                values@.len()
            } else {
                outputs@.len()
            },
            views(outputs@) == fragments(output@, delimiter@),
            inputs@.len() == i,
            results@.len() == i,
            forall|j: int| 0 <= j < i ==> (#[trigger] inputs@[j])@ == at_or_empty(views(values@), j),
            forall|j: int| 0 <= j < i ==> (#[trigger] results@[j])@ == at_or_empty(views(outputs@), j),
        decreases len - i,
    {
        let ghost old_in = inputs@;
        let ghost old_out = results@;
        if i < values.len() {
            inputs.push(values[i].clone());
        } else {
            inputs.push(String::new());
        }
        if i < outputs.len() {
            results.push(outputs[i].clone());
        } else {
            results.push(String::new());
        }
        assert(inputs@[i as int]@ == at_or_empty(views(values@), i as int));
        assert(results@[i as int]@ == at_or_empty(views(outputs@), i as int));
        assert forall|j: int| 0 <= j < i + 1 implies (#[trigger] inputs@[j])@ == at_or_empty(
            views(values@),
            j,
        ) by {
            if j < i {
                assert(inputs@[j] == old_in[j]);
            }
        }
        assert forall|j: int| 0 <= j < i + 1 implies (#[trigger] results@[j])@ == at_or_empty(
            views(outputs@),
            j,
        ) by {
            if j < i {
                assert(results@[j] == old_out[j]);
            }
        }
        i += 1;
    }
    (inputs, results)
}

} // verus!
