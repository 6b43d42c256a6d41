use llm_udf::reduce::{AggregateError, AggregationState, PartialState, ReduceStep, TreeReduce};

fn strings(v: &[&str]) -> Vec<String> {
    v.iter().map(|s| s.to_string()).collect()
}

/// Runs a group's evaluation with a transport that answers each prompt
/// with `<prompt>`, and counts the batches.
fn run(state: &AggregationState) -> (Result<Option<String>, String>, Vec<Vec<String>>) {
    let (mut machine, mut step) = TreeReduce::start(state);
    let mut batches = Vec::new();
    loop {
        match step {
            ReduceStep::Submit(prompts) => {
                batches.push(prompts.clone());
                let results: Vec<String> = prompts.iter().map(|p| format!("<{}>", p)).collect();
                let (m, s) = machine.next(results);
                machine = m;
                step = s;
            }
            ReduceStep::Done(v) => return (Ok(v), batches),
            ReduceStep::Failed(e) => return (Err(format!("{:?}", e)), batches),
        }
    }
}

fn group(values: &[&str], reduce: &str, map: Option<&str>) -> AggregationState {
    let mut state = AggregationState::new(map.is_some());
    let content: Vec<Option<String>> = values.iter().map(|v| Some(v.to_string())).collect();
    let reduce_col = vec![Some(reduce.to_string()); values.len().max(1)];
    let map_col = map.map(|m| vec![Some(m.to_string()); values.len().max(1)]);
    state.update(&content, &reduce_col, map_col.as_ref());
    state
}

#[test]
fn merged_partitions_reduce_as_one_group() {
    let mut left = group(&["a", "b"], "Combine:{0}|{1}", None);
    let right = group(&["c"], "Combine:{0}|{1}", None);
    left.merge(&vec![PartialState {
        reduce_prompt: right.reduce_prompt.clone(),
        map_prompt: right.map_prompt.clone(),
        values: Some(right.values.clone()),
    }]);
    assert_eq!(left.values, strings(&["a", "b", "c"]));
    let (result, batches) = run(&left);
    assert_eq!(batches[0], strings(&["Combine:a|b"]));
    assert_eq!(batches[1], strings(&["Combine:<Combine:a|b>|c"]));
    assert_eq!(batches.len(), 2);
    assert_eq!(result, Ok(Some("<Combine:<Combine:a|b>|c>".to_string())));
}

#[test]
fn rounds_are_ceil_log2() {
    for (n, rounds) in [(1usize, 0usize), (2, 1), (3, 2), (4, 2), (5, 3), (8, 3), (9, 4)] {
        let names: Vec<String> = (0..n).map(|i| format!("v{}", i)).collect();
        let refs: Vec<&str> = names.iter().map(|s| s.as_str()).collect();
        let (result, batches) = run(&group(&refs, "{0}+{1}", None));
        assert_eq!(batches.len(), rounds, "n = {}", n);
        assert!(result.unwrap().is_some());
    }
}

#[test]
fn single_value_is_returned_unchanged() {
    let (result, batches) = run(&group(&["only"], "{0}+{1}", None));
    assert!(batches.is_empty());
    assert_eq!(result, Ok(Some("only".to_string())));
}

#[test]
fn odd_item_is_carried_forward() {
    let (result, batches) = run(&group(&["a", "b", "c", "d", "e"], "{0}{1}", None));
    assert_eq!(batches[0], strings(&["ab", "cd"]));
    assert_eq!(batches[1], strings(&["<ab><cd>"]));
    assert_eq!(batches[2], strings(&["<<ab><cd>>e"]));
    assert_eq!(result, Ok(Some("<<<ab><cd>>e>".to_string())));
}

#[test]
fn map_then_reduce() {
    let (result, batches) = run(&group(&["x", "y"], "{0}&{1}", Some("S({0})")));
    assert_eq!(batches[0], strings(&["S(x)", "S(y)"]));
    assert_eq!(batches[1], strings(&["<S(x)>&<S(y)>"]));
    assert_eq!(result, Ok(Some("<<S(x)>&<S(y)>>".to_string())));
}

#[test]
fn empty_group_is_null() {
    let state = AggregationState::new(false);
    let (result, batches) = run(&state);
    assert!(batches.is_empty());
    assert_eq!(result, Ok(None));
}

#[test]
fn evaluation_errors() {
    let mut state = AggregationState::new(false);
    state.update(&vec![Some("v".to_string())], &vec![None], None);
    assert!(matches!(TreeReduce::start(&state).1, ReduceStep::Failed(AggregateError::MissingReducePrompt)));
    let state = group(&["a", "b"], "Only {0}", None);
    match TreeReduce::start(&state).1 {
        ReduceStep::Failed(AggregateError::InvalidReducePrompt(m)) => {
            assert_eq!(m, "Fold template must contain {1} for the second item")
        }
        other => panic!("unexpected step {:?}", other),
    }
    let state = group(&["a", "b"], "{0}{1}", Some("none"));
    assert!(matches!(TreeReduce::start(&state).1, ReduceStep::Failed(AggregateError::InvalidMapPrompt(_))));
    let state = group(&["a", "b"], "x {} {0}{1}", None);
    assert!(matches!(TreeReduce::start(&state).1, ReduceStep::Failed(AggregateError::InvalidReducePrompt(_))));
}

#[test]
fn extra_placeholders_only_warn() {
    let (result, batches) = run(&group(&["a", "b"], "{0}{1}{2}", Some("{0} {1}")));
    assert_eq!(batches[0], strings(&["a {1}", "b {1}"]));
    assert_eq!(batches[1], strings(&["<a {1}><b {1}>{2}"]));
    assert_eq!(result, Ok(Some("<<a {1}><b {1}>{2}>".to_string())));
}

#[test]
fn update_captures_first_templates_and_skips_nulls() {
    let mut state = AggregationState::new(true);
    state.update(
        &vec![Some("a".to_string()), None, Some("b".to_string())],
        &vec![None, Some("R1".to_string()), Some("R2".to_string())],
        Some(&vec![None, None, Some("M".to_string())]),
    );
    assert_eq!(state.values, strings(&["a", "b"]));
    assert_eq!(state.reduce_prompt, Some("R1".to_string()));
    assert_eq!(state.map_prompt, Some("M".to_string()));
    state.update(&vec![Some("c".to_string())], &vec![Some("R3".to_string())], Some(&vec![Some("M2".to_string())]));
    assert_eq!(state.reduce_prompt, Some("R1".to_string()));
    assert_eq!(state.map_prompt, Some("M".to_string()));
    assert_eq!(state.values, strings(&["a", "b", "c"]));
    let mut plain = AggregationState::new(false);
    plain.update(&vec![], &vec![], Some(&vec![Some("M".to_string())]));
    assert_eq!(plain.map_prompt, None);
}

#[test]
fn merge_takes_missing_templates() {
    let mut state = AggregationState::new(false);
    state.merge(&vec![
        PartialState { reduce_prompt: None, map_prompt: None, values: Some(strings(&["a"])) },
        PartialState { reduce_prompt: Some("R".to_string()), map_prompt: Some("M".to_string()), values: None },
        PartialState { reduce_prompt: Some("R2".to_string()), map_prompt: None, values: Some(strings(&["b", "c"])) },
    ]);
    assert_eq!(state.values, strings(&["a", "b", "c"]));
    assert_eq!(state.reduce_prompt, Some("R".to_string()));
    assert_eq!(state.map_prompt, Some("M".to_string()));
}

#[test]
fn partial_state_travels_as_json() {
    let state = group(&["a \"q\"", "b"], "{0}{1}", None);
    let json = state.encoded_values();
    assert_eq!(json, "[\"a \\\"q\\\"\",\"b\"]");
    let back = PartialState::decode(Some("R".to_string()), None, Some(json));
    assert_eq!(back.values, Some(strings(&["a \"q\"", "b"])));
    assert_eq!(back.reduce_prompt, Some("R".to_string()));
    let bad = PartialState::decode(None, None, Some("not json".to_string()));
    assert_eq!(bad.values, None);
    let null = PartialState::decode(None, None, None);
    assert_eq!(null.values, None);
}
