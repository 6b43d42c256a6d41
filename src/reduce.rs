//! The tree-reduce aggregator: it collects every raw value of a group,
//! merges partial states by concatenation, optionally maps each value
//! through a template, then folds pairs level by level, one batch per level.
use crate::template::{
    fill_template, filling, fold_validation, joined, map_validation, outcome_view,
    validate_fold_template, validate_map_template, TemplateError,
};
use crate::batch::json_quoted;
use crate::text::views;
use vstd::arithmetic::power2::pow2;
use vstd::prelude::*;

verus! {

/// The accumulated state of one aggregation group: the templates it was
/// given and every raw value seen so far.
#[derive(Debug, Clone)]
pub struct AggregationState {
    pub reduce_prompt: Option<String>,
    pub map_prompt: Option<String>,
    pub values: Vec<String>,
    /// Whether the group was declared with a map template.
    pub has_map: bool,
}

/// One partial state from another partition, as the engine hands it over.
#[derive(Debug, Clone)]
pub struct PartialState {
    pub reduce_prompt: Option<String>,
    pub map_prompt: Option<String>,
    pub values: Option<Vec<String>>,
}

pub open spec fn opt_view(o: Option<String>) -> Option<Seq<char>> {
    match o {
        Some(s) => Some(s@),
        None => None,
    }
}

/// The first value of a column that is not null.
pub open spec fn first_present(col: Seq<Option<String>>) -> Option<Seq<char>>
    decreases col.len(),
{
    if col.len() == 0 {
        None
    } else if col[0] is Some {
        Some(col[0]->Some_0@)
    } else {
        first_present(col.drop_first())
    }
}

/// The values of a column that are not null, in order.
pub open spec fn present_values(col: Seq<Option<String>>) -> Seq<Seq<char>>
    decreases col.len(),
{
    if col.len() == 0 {
        Seq::empty()
    } else {
        let rest = present_values(col.drop_last());
        match col.last() {
            Some(s) => rest.push(s@),
            None => rest,
        }
    }
}

/// A template already captured is kept; else the first one offered wins.
pub open spec fn captured(current: Option<Seq<char>>, offered: Option<Seq<char>>) -> Option<
    Seq<char>,
> {
    if current is Some {
        current
    } else {
        offered
    }
}

pub open spec fn reduce_column(rows: Seq<PartialState>) -> Seq<Option<String>> {
    rows.map_values(|r: PartialState| r.reduce_prompt)
}

pub open spec fn map_column(rows: Seq<PartialState>) -> Seq<Option<String>> {
    rows.map_values(|r: PartialState| r.map_prompt)
}

/// All raw values of the partial states, in order.
pub open spec fn merged_values(rows: Seq<PartialState>) -> Seq<Seq<char>>
    decreases rows.len(),
{
    if rows.len() == 0 {
        Seq::empty()
    } else {
        let rest = merged_values(rows.drop_last());
        match rows.last().values {
            Some(v) => rest + views(v@),
            None => rest,
        }
    }
}

/// The first value of `col` that is not null.
fn first_present_exec(col: &Vec<Option<String>>) -> (r: Option<String>)
    ensures
        opt_view(r) == first_present(col@),
{
    let mut i: usize = 0;
    assert(col@.skip(0) =~= col@);
    while i < col.len()
        invariant
            i <= col@.len(),
            first_present(col@) == first_present(col@.skip(i as int)),
        decreases col@.len() - i,
    {
        assert(col@.skip(i as int)[0] == col@[i as int]);
        if let Some(s) = &col[i] {
            return Some(s.clone());
        }
        assert(col@.skip(i as int).drop_first() =~= col@.skip(i + 1));
        i += 1;
    }
    assert(col@.skip(i as int) =~= Seq::<Option<String>>::empty());
    None
}

impl AggregationState {
    pub open spec fn reduce_view(&self) -> Option<Seq<char>> {
        opt_view(self.reduce_prompt)
    }

    pub open spec fn map_view(&self) -> Option<Seq<char>> {
        opt_view(self.map_prompt)
    }

    /// A group with no row yet.
    pub fn new(has_map: bool) -> (r: AggregationState)
        ensures
            r.reduce_prompt is None,
            r.map_prompt is None,
            r.values@.len() == 0,
            r.has_map == has_map,
    {
        AggregationState { reduce_prompt: None, map_prompt: None, values: Vec::new(), has_map }
    }

    /// Takes in a batch of rows: the content column, the reduce template
    /// column and, where the group has one, the map template column. The
    /// first template that is not null is captured; null contents are
    /// skipped.
    pub fn update(
        &mut self,
        content: &Vec<Option<String>>,
        reduce_prompts: &Vec<Option<String>>,
        map_prompts: Option<&Vec<Option<String>>>,
    )
        ensures
            final(self).reduce_view() == captured(old(self).reduce_view(), first_present(reduce_prompts@)),
            final(self).map_view() == match map_prompts {
                Some(m) => if old(self).has_map {
                    captured(old(self).map_view(), first_present(m@))
                } else {
                    old(self).map_view()
                },
                None => old(self).map_view(),
            },
            views(final(self).values@) == views(old(self).values@) + present_values(content@),
            final(self).has_map == old(self).has_map,
    {
        if self.reduce_prompt.is_none() {
            self.reduce_prompt = first_present_exec(reduce_prompts);
        }
        if self.has_map {
            if let Some(m) = map_prompts {
                if self.map_prompt.is_none() {
                    self.map_prompt = first_present_exec(m);
                }
            }
        }
        let ghost base = views(self.values@);
        let ghost r1 = self.reduce_prompt;
        let ghost m1 = self.map_prompt;
        let mut i: usize = 0;
        while i < content.len()
            invariant
                i <= content@.len(),
                self.reduce_prompt == r1,
                self.map_prompt == m1,
                self.has_map == old(self).has_map,
                views(self.values@) == base + present_values(content@.take(i as int)),
            decreases content@.len() - i,
        {
            let ghost seen = content@.take(i + 1);
            assert(seen.drop_last() =~= content@.take(i as int));
            assert(seen.last() == content@[i as int]);
            if let Some(v) = &content[i] {
                let ghost before = views(self.values@);
                self.values.push(v.clone());
                assert(views(self.values@) =~= before.push(v@));
            }
            i += 1;
        }
        assert(content@.take(i as int) =~= content@);
    }

    /// Merges partial states of the same group from other partitions: their
    /// raw values are appended as they are (nothing is reduced before every
    /// value is in), and a template not captured yet is taken from the first
    /// state that has it.
    pub fn merge(&mut self, states: &Vec<PartialState>)
        ensures
            final(self).reduce_view() == captured(old(self).reduce_view(), first_present(reduce_column(states@))),
            final(self).map_view() == captured(old(self).map_view(), first_present(map_column(states@))),
            views(final(self).values@) == views(old(self).values@) + merged_values(states@),
            final(self).has_map == old(self).has_map,
    {
        let ghost base = views(self.values@);
        let ghost r0 = self.reduce_view();
        let ghost m0 = self.map_view();
        let mut i: usize = 0;
        while i < states.len()
            invariant
                i <= states@.len(),
                views(self.values@) == base + merged_values(states@.take(i as int)),
                self.reduce_view() == captured(r0, first_present(reduce_column(states@.take(i as int)))),
                self.map_view() == captured(m0, first_present(map_column(states@.take(i as int)))),
                self.has_map == old(self).has_map,
            decreases states@.len() - i,
        {
            let ghost seen = states@.take(i + 1);
            proof {
                assert(seen.drop_last() =~= states@.take(i as int));
                assert(seen.last() == states@[i as int]);
                lemma_first_present_extend(reduce_column(states@.take(i as int)), states@[i as int].reduce_prompt);
                assert(reduce_column(seen) =~= reduce_column(states@.take(i as int)).push(states@[i as int].reduce_prompt));
                lemma_first_present_extend(map_column(states@.take(i as int)), states@[i as int].map_prompt);
                assert(map_column(seen) =~= map_column(states@.take(i as int)).push(states@[i as int].map_prompt));
            }
            let row = &states[i];
            if self.reduce_prompt.is_none() {
                if let Some(r) = &row.reduce_prompt {
                    self.reduce_prompt = Some(r.clone());
                }
            }
            if self.map_prompt.is_none() {
                if let Some(m) = &row.map_prompt {
                    self.map_prompt = Some(m.clone());
                }
            }
            if let Some(vals) = &row.values {
                let ghost before = views(self.values@);
                let ghost r1 = self.reduce_prompt;
                let ghost m1 = self.map_prompt;
                let mut k: usize = 0;
                while k < vals.len()
                    invariant
                        k <= vals@.len(),
                        self.reduce_prompt == r1,
                        self.map_prompt == m1,
                        self.has_map == old(self).has_map,
                        views(self.values@) == before + views(vals@.take(k as int)),
                    decreases vals@.len() - k,
                {
                    let ghost prev = self.values@;
                    self.values.push(vals[k].clone());
                    assert(views(self.values@) =~= views(prev).push(vals@[k as int]@));
                    assert(views(vals@.take(k + 1)) =~= views(vals@.take(k as int)).push(vals@[k as int]@));
                    assert(views(self.values@) =~= before + views(vals@.take(k + 1)));
                    k += 1;
                }
                assert(vals@.take(k as int) =~= vals@);
                assert(views(self.values@) =~= base + merged_values(seen));
            } else {
                assert(merged_values(seen) == merged_values(states@.take(i as int)));
            }
            i += 1;
        }
        assert(states@.take(i as int) =~= states@);
    }
}

proof fn lemma_first_present_extend(col: Seq<Option<String>>, x: Option<String>)
    ensures
        first_present(col.push(x)) == match first_present(col) {
            Some(s) => Some(s),
            None => opt_view(x),
        },
    decreases col.len(),
{
    if col.len() == 0 {
        assert(col.push(x).drop_first() =~= Seq::<Option<String>>::empty());
        assert(first_present(Seq::<Option<String>>::empty()) is None);
        assert(col.push(x)[0] == x);
    } else {
        assert(col.push(x)[0] == col[0]);
        assert(col.push(x).drop_first() =~= col.drop_first().push(x));
        lemma_first_present_extend(col.drop_first(), x);
    }
}

/// Why a group's value could not be computed.
#[derive(Debug, Clone)]
pub enum AggregateError {
    MissingReducePrompt,
    /// The reduce template failed validation; the validation's message.
    InvalidReducePrompt(String),
    /// The map template failed validation; the validation's message.
    InvalidMapPrompt(String),
    /// A template could not be filled.
    Template(TemplateError),
}

/// What the caller does next while a group's value is computed.
#[derive(Debug)]
pub enum ReduceStep {
    /// Submit these prompts as one batch and hand the results, in order, to
    /// `TreeReduce::next`.
    Submit(Vec<String>),
    /// The group's value; none for a group without values.
    Done(Option<String>),
    Failed(AggregateError),
}

/// A tree reduction between two batches: the reduce template, whether the
/// batch in flight is the map step, how many prompts it holds, and the item
/// carried past it unpaired.
#[derive(Debug)]
pub struct TreeReduce {
    pub template: String,
    pub mapping: bool,
    pub pending: usize,
    pub carried: Option<String>,
}

pub open spec fn prefixed(p: Seq<Seq<char>>, r: Result<Seq<Seq<char>>, TemplateError>) -> Result<
    Seq<Seq<char>>,
    TemplateError,
> {
    match r {
        Ok(rest) => Ok(p + rest),
        Err(e) => Err(e),
    }
}

/// The prompts that combine the pairs `(items[2j], items[2j+1])` for
/// `j >= k`, in order; an unpaired last item gets none.
pub open spec fn pair_prompts(t: Seq<char>, items: Seq<Seq<char>>, k: nat) -> Result<
    Seq<Seq<char>>,
    TemplateError,
>
    decreases items.len() - 2 * k,
{
    if 2 * k + 1 >= items.len() {
        Ok(Seq::empty())
    } else {
        match filling(t, seq![items[2 * k as int], items[(2 * k + 1) as int]]) {
            Ok(p) => prefixed(seq![p], pair_prompts(t, items, k + 1)),
            Err(e) => Err(e),
        }
    }
}

/// The prompts that map each of `vals[k..]` through the template.
pub open spec fn map_prompts(t: Seq<char>, vals: Seq<Seq<char>>, k: nat) -> Result<
    Seq<Seq<char>>,
    TemplateError,
>
    decreases vals.len() - k,
{
    if k >= vals.len() {
        Ok(Seq::empty())
    } else {
        match filling(t, seq![vals[k as int]]) {
            Ok(p) => prefixed(seq![p], map_prompts(t, vals, k + 1)),
            Err(e) => Err(e),
        }
    }
}

/// The items of the next level: the combined pairs, then the carried item.
pub open spec fn next_level(results: Seq<Seq<char>>, carried: Option<Seq<char>>) -> Seq<Seq<char>> {
    match carried {
        Some(c) => results.push(c),
        None => results,
    }
}

/// What starting a level over `items` gives: the one item left is the
/// value; else the prompts for its pairs, with the odd item carried past.
pub open spec fn level_started(t: Seq<char>, items: Seq<Seq<char>>, m: TreeReduce, r: ReduceStep) -> bool {
    if items.len() == 1 {
        r matches ReduceStep::Done(Some(v)) && v@ == items[0]
    } else {
        match pair_prompts(t, items, 0) {
            Ok(ps) => {
                &&& r matches ReduceStep::Submit(v) && views(v@) == ps
                &&& m.template@ == t
                &&& !m.mapping
                &&& m.pending == items.len() / 2
                &&& ps.len() == items.len() / 2
                &&& opt_view(m.carried) == if items.len() % 2 == 1 {
                    Some(items.last())
                } else {
                    None
                }
            },
            Err(e) => r matches ReduceStep::Failed(AggregateError::Template(x)) && x == e,
        }
    }
}

/// What evaluating a group gives before any batch: nothing for no values,
/// an error for a missing or invalid template, the map batch where there is
/// a map template, else the first level of the reduction.
pub open spec fn evaluation_started(state: AggregationState, m: TreeReduce, r: ReduceStep) -> bool {
    let vals = views(state.values@);
    if vals.len() == 0 {
        r matches ReduceStep::Done(None)
    } else if state.reduce_prompt is None {
        r matches ReduceStep::Failed(AggregateError::MissingReducePrompt)
    } else if fold_validation(state.reduce_prompt->Some_0@) is Err {
        r matches ReduceStep::Failed(AggregateError::InvalidReducePrompt(msg)) && fold_validation(
            state.reduce_prompt->Some_0@,
        ) == Err::<Seq<Seq<char>>, Seq<char>>(msg@)
    } else if state.map_prompt is Some && map_validation(state.map_prompt->Some_0@) is Err {
        r matches ReduceStep::Failed(AggregateError::InvalidMapPrompt(msg)) && map_validation(
            state.map_prompt->Some_0@,
        ) == Err::<Seq<Seq<char>>, Seq<char>>(msg@)
    } else if state.map_prompt is Some {
        match map_prompts(state.map_prompt->Some_0@, vals, 0) {
            Ok(ps) => {
                &&& r matches ReduceStep::Submit(v) && views(v@) == ps
                &&& m.template@ == state.reduce_prompt->Some_0@
                &&& m.mapping
                &&& m.pending == vals.len()
                &&& ps.len() == vals.len()
                &&& m.carried is None
            },
            Err(e) => r matches ReduceStep::Failed(AggregateError::Template(x)) && x == e,
        }
    } else {
        level_started(state.reduce_prompt->Some_0@, vals, m, r)
    }
}

fn pair_prompts_exec(template: &String, items: &Vec<String>) -> (r: Result<Vec<String>, TemplateError>)
    ensures
        match pair_prompts(template@, views(items@), 0) {
            Ok(ps) => r matches Ok(v) && views(v@) == ps && v@.len() == items@.len() / 2,
            Err(e) => r == Err::<Vec<String>, TemplateError>(e),
        },
{
    let ghost its = views(items@);
    let mut out: Vec<String> = Vec::new();
    let mut k: usize = 0;
    while k < items.len() / 2
        invariant
            k <= items@.len() / 2,
            its == views(items@),
            out@.len() == k,
            pair_prompts(template@, its, 0) == prefixed(views(out@), pair_prompts(template@, its, k as nat)),
        decreases items@.len() / 2 - k,
    {
        let pair = vec![items[2 * k].clone(), items[2 * k + 1].clone()];
        assert(views(pair@) =~= seq![its[2 * k as int], its[2 * k + 1]]);
        match fill_template(template.as_str(), &pair) {
            Ok(p) => {
                let ghost before = views(out@);
                out.push(p);
                proof {
                    assert(views(out@) =~= before.push(p@));
                    match pair_prompts(template@, its, (k + 1) as nat) {
                        Ok(rest) => {
                            assert(before + (seq![p@] + rest) =~= views(out@) + rest);
                        },
                        Err(_) => {},
                    }
                }
            },
            Err(e) => {
                return Err(e);
            },
        }
        k += 1;
    }
    assert(views(out@) + Seq::<Seq<char>>::empty() =~= views(out@));
    Ok(out)
}

pub fn map_prompts_exec(template: &String, vals: &Vec<String>) -> (r: Result<Vec<String>, TemplateError>)
    ensures
        match map_prompts(template@, views(vals@), 0) {
            Ok(ps) => r matches Ok(v) && views(v@) == ps && v@.len() == vals@.len(),
            Err(e) => r == Err::<Vec<String>, TemplateError>(e),
        },
{
    let ghost vs = views(vals@);
    let mut out: Vec<String> = Vec::new();
    let mut k: usize = 0;
    while k < vals.len()
        invariant
            k <= vals@.len(),
            vs == views(vals@),
            out@.len() == k,
            map_prompts(template@, vs, 0) == prefixed(views(out@), map_prompts(template@, vs, k as nat)),
        decreases vals@.len() - k,
    {
        let one = vec![vals[k].clone()];
        assert(views(one@) =~= seq![vs[k as int]]);
        match fill_template(template.as_str(), &one) {
            Ok(p) => {
                let ghost before = views(out@);
                out.push(p);
                proof {
                    assert(views(out@) =~= before.push(p@));
                    match map_prompts(template@, vs, (k + 1) as nat) {
                        Ok(rest) => {
                            assert(before + (seq![p@] + rest) =~= views(out@) + rest);
                        },
                        Err(_) => {},
                    }
                }
            },
            Err(e) => {
                return Err(e);
            },
        }
        k += 1;
    }
    assert(views(out@) + Seq::<Seq<char>>::empty() =~= views(out@));
    Ok(out)
}

impl TreeReduce {
    /// Starts a level of the reduction over `items`.
    pub fn start_level(template: &String, items: Vec<String>) -> (r: (TreeReduce, ReduceStep))
        requires
            items@.len() >= 1,
        ensures
            level_started(template@, views(items@), r.0, r.1),
    {
        let n = items.len();
        if n == 1 {
            let machine = TreeReduce {
                template: template.clone(),
                mapping: false,
                pending: 0,
                carried: None,
            };
            let v = items[0].clone();
            return (machine, ReduceStep::Done(Some(v)));
        }
        match pair_prompts_exec(template, &items) {
            Ok(prompts) => {
                let carried = if n % 2 == 1 {
                    Some(items[n - 1].clone())
                } else {
                    None
                };
                let machine = TreeReduce {
                    template: template.clone(),
                    mapping: false,
                    pending: prompts.len(),
                    carried,
                };
                (machine, ReduceStep::Submit(prompts))
            },
            Err(e) => {
                let machine = TreeReduce {
                    template: template.clone(),
                    mapping: false,
                    pending: 0,
                    carried: None,
                };
                (machine, ReduceStep::Failed(AggregateError::Template(e)))
            },
        }
    }

    /// Starts computing a group's value: checks the templates, then hands
    /// out the map batch or the first level of the reduction.
    pub fn start(state: &AggregationState) -> (r: (TreeReduce, ReduceStep))
        ensures
            evaluation_started(*state, r.0, r.1),
    {
        let idle = TreeReduce {
            template: String::new(),
            mapping: false,
            pending: 0,
            carried: None,
        };
        if state.values.len() == 0 {
            return (idle, ReduceStep::Done(None));
        }
        let reduce = match &state.reduce_prompt {
            Some(t) => t,
            None => {
                return (idle, ReduceStep::Failed(AggregateError::MissingReducePrompt));
            },
        };
        let fold_check = validate_fold_template(reduce.as_str());
        assert(outcome_view(fold_check) == fold_validation(reduce@));
        if let Err(msg) = fold_check {
            return (idle, ReduceStep::Failed(AggregateError::InvalidReducePrompt(msg)));
        }
        match &state.map_prompt {
            Some(map) => {
                let map_check = validate_map_template(map.as_str());
                assert(outcome_view(map_check) == map_validation(map@));
                if let Err(msg) = map_check {
                    return (idle, ReduceStep::Failed(AggregateError::InvalidMapPrompt(msg)));
                }
                match map_prompts_exec(map, &state.values) {
                    Ok(prompts) => {
                        let machine = TreeReduce {
                            template: reduce.clone(),
                            mapping: true,
                            pending: prompts.len(),
                            carried: None,
                        };
                        (machine, ReduceStep::Submit(prompts))
                    },
                    Err(e) => (idle, ReduceStep::Failed(AggregateError::Template(e))),
                }
            },
            None => {
                let items = state.values.clone();
                assert(items@ == state.values@);
                TreeReduce::start_level(reduce, items)
            },
        }
    }

    /// Takes the results of the batch in flight, in order, and hands out the
    /// next level: the mapped values, or the combined pairs followed by the
    /// carried item.
    pub fn next(&self, results: Vec<String>) -> (r: (TreeReduce, ReduceStep))
        requires
            self.pending > 0,
            results@.len() == self.pending,
        ensures
            level_started(
                self.template@,
                if self.mapping {
                    views(results@)
                } else {
                    next_level(views(results@), opt_view(self.carried))
                },
                r.0,
                r.1,
            ),
    {
        let mut items = results;
        if !self.mapping {
            if let Some(c) = &self.carried {
                let ghost before = views(items@);
                items.push(c.clone());
                assert(views(items@) =~= before.push(c@));
            }
        }
        TreeReduce::start_level(&self.template, items)
    }
}

/// The number of reduce levels that fold `m` items into one.
pub open spec fn reduce_rounds(m: nat) -> nat
    decreases m,
{
    if m <= 1 {
        0
    } else {
        1 + reduce_rounds(((m + 1) / 2) as nat)
    }
}

/// A level of `m >= 2` items leaves `ceil(m / 2)` items for the next: the
/// `m / 2` combined pairs and the carried item where `m` is odd.
pub proof fn lemma_level_halves(m: nat)
    requires
        m >= 2,
    ensures
        m / 2 + (if m % 2 == 1 { 1nat } else { 0nat }) == (m + 1) / 2,
        reduce_rounds(m) == 1 + reduce_rounds((m + 1) / 2),
{
}

/// Tree-reducing `n >= 1` values takes exactly `ceil(log2(n))` batches:
/// the smallest `r` with `2^r >= n`. One value takes none.
pub proof fn lemma_rounds_are_ceil_log2(n: nat)
    requires
        n >= 1,
    ensures
        pow2(reduce_rounds(n)) >= n,
        reduce_rounds(n) > 0 ==> pow2((reduce_rounds(n) - 1) as nat) < n,
        n == 1 ==> reduce_rounds(n) == 0,
    decreases n,
{
    vstd::arithmetic::power2::lemma2_to64();
    if n >= 2 {
        let h = ((n + 1) / 2) as nat;
        lemma_rounds_are_ceil_log2(h);
        let r = reduce_rounds(h);
        vstd::arithmetic::power2::lemma_pow2_unfold(r + 1);
        assert(pow2(r + 1) == 2 * pow2(r));
        if r > 0 {
            vstd::arithmetic::power2::lemma_pow2_unfold(r);
            assert(pow2(r) == 2 * pow2((r - 1) as nat));
        }
    }
}

/// The size of the level a reduction in flight is folding: two items per
/// prompt, plus the carried one.
pub open spec fn level_size(m: TreeReduce) -> nat {
    (2 * m.pending + if m.carried is Some {
        1int
    } else {
        0int
    }) as nat
}

/// A level of two or more items that starts a batch puts the whole level
/// in flight.
pub proof fn lemma_started_level_size(t: Seq<char>, items: Seq<Seq<char>>, m: TreeReduce, r: ReduceStep)
    requires
        items.len() >= 2,
        level_started(t, items, m, r),
        r is Submit,
    ensures
        !m.mapping,
        m.pending >= 1,
        level_size(m) == items.len(),
{
}

/// Each reduce batch uses up one round: the level it leaves is
/// `ceil(size / 2)` items long and needs one round fewer than the level in
/// flight, so a group of `n` values takes `reduce_rounds(n)` batches.
pub proof fn lemma_batch_uses_one_round(m: TreeReduce, results: Seq<Seq<char>>)
    requires
        !m.mapping,
        m.pending > 0,
        results.len() == m.pending,
    ensures
        next_level(results, opt_view(m.carried)).len() == (level_size(m) + 1) / 2,
        reduce_rounds(level_size(m)) == 1 + reduce_rounds(next_level(results, opt_view(m.carried)).len()),
{
}

/// The prompt counts of the batches of a whole reduction of `m` items, in
/// order: each level of `k` items sends `k / 2` prompts and leaves
/// `ceil(k / 2)` items.
pub open spec fn batch_sizes(m: nat) -> Seq<nat>
    decreases m,
{
    if m <= 1 {
        Seq::empty()
    } else {
        seq![m / 2] + batch_sizes(((m + 1) / 2) as nat)
    }
}

/// A whole reduction of `n >= 1` values sends `ceil(log2(n))` batches, the
/// first of `n / 2` prompts; one value sends none.
pub proof fn lemma_run_takes_ceil_log2_batches(n: nat)
    requires
        n >= 1,
    ensures
        batch_sizes(n).len() == reduce_rounds(n),
        pow2(batch_sizes(n).len()) >= n,
        batch_sizes(n).len() > 0 ==> pow2((batch_sizes(n).len() - 1) as nat) < n,
        n >= 2 ==> batch_sizes(n)[0] == n / 2,
    decreases n,
{
    lemma_rounds_are_ceil_log2(n);
    if n >= 2 {
        lemma_run_takes_ceil_log2_batches(((n + 1) / 2) as nat);
    }
}

/// Once partial states are merged, evaluation reduces every raw value of
/// every partition as one group: without a map template, the first level
/// pairs the values held before the merge followed by all merged ones, and
/// no partition is reduced on its own.
pub proof fn lemma_merged_values_reduce_together(
    before: Seq<Seq<char>>,
    rows: Seq<PartialState>,
    after: AggregationState,
    m: TreeReduce,
    r: ReduceStep,
)
    requires
        views(after.values@) == before + merged_values(rows),
        before.len() + merged_values(rows).len() >= 1,
        after.reduce_prompt is Some,
        fold_validation(after.reduce_prompt->Some_0@) is Ok,
        after.map_prompt is None,
        evaluation_started(after, m, r),
    ensures
        level_started(after.reduce_prompt->Some_0@, before + merged_values(rows), m, r),
{
}

/// Merging partial states in two batches gathers the same raw values, in
/// the same order, as merging them all at once: no value is combined or
/// dropped on the way.
pub proof fn lemma_merge_in_parts(a: Seq<PartialState>, b: Seq<PartialState>)
    ensures
        merged_values(a + b) == merged_values(a) + merged_values(b),
    decreases b.len(),
{
    if b.len() == 0 {
        assert(a + b =~= a);
        assert(merged_values(a) + Seq::<Seq<char>>::empty() =~= merged_values(a));
    } else {
        assert((a + b).drop_last() =~= a + b.drop_last());
        assert((a + b).last() == b.last());
        lemma_merge_in_parts(a, b.drop_last());
        match b.last().values {
            Some(v) => {
                assert(merged_values(a) + merged_values(b.drop_last()) + views(v@) =~= merged_values(a)
                    + (merged_values(b.drop_last()) + views(v@)));
            },
            None => {},
        }
    }
}

/// The JSON array that `serde_json` writes for a list of strings: the
/// string literals joined by `,` between `[` and `]`.
pub open spec fn json_list_of(v: Seq<Seq<char>>) -> Seq<char> {
    seq!['['] + joined(v.map_values(|t: Seq<char>| json_quoted(t)), seq![',']) + seq![']']
}

/// The list of strings that `serde_json` reads from a text, or none where
/// the text is not a JSON array of strings.
pub uninterp spec fn json_list_in(s: Seq<char>) -> Option<Seq<Seq<char>>>;

/// Relies on `serde_json::to_string` applied to a `Vec<String>`: it
/// succeeds (strings always serialize) and gives the JSON array of the texts.
#[verifier::external_body]
fn json_list(v: &Vec<String>) -> (r: Result<String, serde_json::Error>)
    ensures
        r is Ok,
        r matches Ok(j) ==> j@ == json_list_of(views(v@)),
{
    serde_json::to_string(v)
}

/// Relies on `serde_json::from_str::<Vec<String>>`: the list it reads, or
/// none where it fails.
#[verifier::external_body]
fn parse_json_list(s: &str) -> (r: Option<Vec<String>>)
    ensures
        match r {
            Some(v) => json_list_in(s@) == Some(views(v@)),
            None => json_list_in(s@) is None,
        },
{
    serde_json::from_str::<Vec<String>>(s).ok()
}

impl AggregationState {
    /// The raw values as one JSON array, the form in which a partial state
    /// travels between partitions.
    pub fn encoded_values(&self) -> (r: String)
        ensures
            r@ == json_list_of(views(self.values@)),
    {
        match json_list(&self.values) {
            Ok(j) => j,
            Err(_) => {
                proof {
                    assert(false);
                }
                String::new()
            },
        }
    }
}

pub open spec fn decoded_values(values_json: Option<String>) -> Option<Seq<Seq<char>>> {
    match values_json {
        Some(j) => json_list_in(j@),
        None => None,
    }
}

impl PartialState {
    /// A partial state as the engine hands it over: the two templates and
    /// the raw values as JSON; values that do not decode are left out.
    pub fn decode(reduce_prompt: Option<String>, map_prompt: Option<String>, values_json: Option<String>) -> (r: PartialState)
        ensures
            r.reduce_prompt == reduce_prompt,
            r.map_prompt == map_prompt,
            match r.values {
                Some(v) => decoded_values(values_json) == Some(views(v@)),
                None => decoded_values(values_json) is None,
            },
    {
        let values = match &values_json {
            Some(j) => parse_json_list(j.as_str()),
            None => None,
        };
        PartialState { reduce_prompt, map_prompt, values }
    }
}

} // verus!
