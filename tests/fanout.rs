use llm_udf::fanout::{
    batch_map_prompt, pair_outputs, prepare_row_prompts, splice_results, split_results,
    FanoutError, Unfold, UnfoldStep,
};
use llm_udf::text::split_fragments;

fn strings(v: &[&str]) -> Vec<String> {
    v.iter().map(|s| s.to_string()).collect()
}

fn cell(s: &str) -> Option<String> {
    Some(s.to_string())
}

#[test]
fn rows_become_prompts_and_nulls_pass_through() {
    let rows = vec![
        vec![cell("Translate {0} to {1}"), cell("cat"), cell("French")],
        vec![cell("Translate {0} to {1}"), None, cell("French")],
        vec![cell("Translate {0} to {1}"), cell("dog"), cell("German")],
    ];
    let rp = prepare_row_prompts(&rows, 3).unwrap();
    assert_eq!(rp.prompts, strings(&["Translate cat to French", "Translate dog to German"]));
    assert_eq!(rp.present, vec![true, false, true]);
    assert!(rp.warnings.is_empty());
    let spliced = splice_results(&rp.present, &strings(&["chat", "Hund"]));
    assert_eq!(spliced, vec![cell("chat"), None, cell("Hund")]);
}

#[test]
fn invalid_template_stops_the_batch() {
    let rows = vec![vec![None, cell("x")], vec![cell("No placeholder"), cell("x")]];
    match prepare_row_prompts(&rows, 2) {
        Err(FanoutError::InvalidTemplate(m)) => assert!(m.starts_with("Template has no placeholders")),
        other => panic!("unexpected outcome {:?}", other),
    }
}

#[test]
fn lenient_validation_warns() {
    let rows = vec![vec![cell("Hi {0}"), cell("a"), cell("b")]];
    let rp = prepare_row_prompts(&rows, 3).unwrap();
    assert_eq!(rp.warnings, strings(&["Argument 1 is not used in template (missing {1})"]));
    assert_eq!(rp.prompts, strings(&["Hi a"]));
}

#[test]
fn later_row_template_can_fail_to_fill() {
    let rows = vec![vec![cell("{0}"), cell("a")], vec![cell("{3}"), cell("b")]];
    assert!(matches!(prepare_row_prompts(&rows, 2), Err(FanoutError::Template(_))));
}

#[test]
fn split_trims_and_drops_empty_fragments() {
    assert_eq!(split_fragments(" a , b,, c ", ","), strings(&["a", "b", "c"]));
    assert_eq!(split_fragments("one\ntwo\n", "\n"), strings(&["one", "two"]));
    assert_eq!(split_fragments("  whole  ", ""), strings(&["whole"]));
    assert_eq!(split_fragments("   ", ""), Vec::<String>::new());
    assert_eq!(split_fragments("a--b---c", "--"), strings(&["a", "b", "-c"]));
    assert_eq!(split_fragments("\u{3000}x\u{a0}", ";"), strings(&["x"]));
    let spliced = vec![cell("x;y"), None];
    let split = split_results(&spliced, &strings(&[";", ";"]));
    assert_eq!(split, vec![Some(strings(&["x", "y"])), None]);
}

#[test]
fn unfold_rounds() {
    let (m, step) = Unfold::start("Split: {0}", "a b", " ", 2);
    match step {
        UnfoldStep::Submit(p) => assert_eq!(p, strings(&["Split: a b"])),
        other => panic!("unexpected step {:?}", other),
    }
    let (m, step) = m.next(strings(&["x y"]));
    match step {
        UnfoldStep::Submit(p) => assert_eq!(p, strings(&["Split: x", "Split: y"])),
        other => panic!("unexpected step {:?}", other),
    }
    let (_, step) = m.next(strings(&["1 2", "3"]));
    match step {
        UnfoldStep::Done(v) => assert_eq!(v, strings(&["1", "2", "3"])),
        other => panic!("unexpected step {:?}", other),
    }
    let (_, step) = Unfold::start("{0}", "v", "\n", 0);
    assert!(matches!(step, UnfoldStep::Done(v) if v == strings(&["v"])));
}

#[test]
fn batch_map_embeds_all_values() {
    let values = strings(&["apple", "carrot", "banana"]);
    let prompt = batch_map_prompt("Classify each:\n{0:\n}\nOne word per line.", &values).unwrap();
    assert_eq!(prompt, Some("Classify each:\napple\ncarrot\nbanana\nOne word per line.".to_string()));
    assert_eq!(batch_map_prompt("{0:\n}", &Vec::new()).unwrap(), None);
    let (inputs, outputs) = pair_outputs(&values, "fruit\nvegetable\n", "\n");
    assert_eq!(inputs, values);
    assert_eq!(outputs, strings(&["fruit", "vegetable", ""]));
    let (inputs, outputs) = pair_outputs(&strings(&["a"]), "x;y", ";");
    assert_eq!(inputs, strings(&["a", ""]));
    assert_eq!(outputs, strings(&["x", "y"]));
}
