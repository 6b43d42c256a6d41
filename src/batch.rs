//! The batch protocol of the remote inference service: the request file,
//! the decisions between its four calls (upload, create, poll, download),
//! and the reconstruction of results in the order of the prompts.
use crate::template::joined;
use crate::text::{
    canonical_digits, chars_of, decimal, digits_value, lemma_canonical_decimal, lemma_decimal,
    matches_at, occurs_at, push_decimal, push_range, push_str, split_from, split_on,
    string_from_chars, views,
};
use vstd::prelude::*;

verus! {

/// Why a batch call failed.
#[derive(Debug)]
pub enum LlmError {
    /// The transport failed; its message.
    Http(String),
    /// A line of the result file could not be decoded.
    Json(serde_json::Error),
    /// The service answered with a status outside 200..=299.
    Api { status: u16, message: String },
    BatchFailed(String),
    BatchExpired,
    BatchCancelled,
    /// A completed job named no output file.
    MissingOutputFile,
    /// No result came back for this request identifier.
    ResultNotFound(String),
}

#[verifier::external_type_specification]
#[verifier::external_body]
pub struct ExJsonError(serde_json::Error);

/// A lower-case hexadecimal digit.
pub open spec fn hex_digit(d: nat) -> char {
    seq!['0', '1', '2', '3', '4', '5', '6', '7', '8', '9', 'a', 'b', 'c', 'd', 'e', 'f'][d as int]
}

/// How `serde_json` writes one character inside a string literal: `"` and
/// `\` behind a backslash, the five short control escapes, other control
/// characters below U+0020 as `\u00xx`, everything else as it is.
pub open spec fn json_escape(c: char) -> Seq<char> {
    let u = c as u32;
    if c == '"' {
        seq!['\\', '"']
    } else if c == '\\' {
        seq!['\\', '\\']
    } else if u == 0x08 {
        seq!['\\', 'b']
    } else if u == 0x09 {
        seq!['\\', 't']
    } else if u == 0x0a {
        seq!['\\', 'n']
    } else if u == 0x0c {
        seq!['\\', 'f']
    } else if u == 0x0d {
        seq!['\\', 'r']
    } else if u < 0x20 {
        seq!['\\', 'u', '0', '0', hex_digit((u / 16) as nat), hex_digit((u % 16) as nat)]
    } else {
        seq![c]
    }
}

/// The escaped characters of a text, in order.
pub open spec fn json_escaped(s: Seq<char>) -> Seq<char>
    decreases s.len(),
{
    if s.len() == 0 {
        Seq::empty()
    } else {
        json_escaped(s.drop_last()) + json_escape(s.last())
    }
}

/// The JSON string literal that `serde_json` writes for a text.
pub open spec fn json_quoted(s: Seq<char>) -> Seq<char> {
    seq!['"'] + json_escaped(s) + seq!['"']
}

/// Relies on `serde_json::to_string` applied to a `str`: it succeeds (a
/// `str` always serializes) and gives the JSON string literal for the text.
#[verifier::external_body]
fn json_string(s: &str) -> (r: Result<String, serde_json::Error>)
    ensures
        r is Ok,
        r matches Ok(j) ==> j@ == json_quoted(s@),
{
    serde_json::to_string(s)
}

/// The identifier of the request for the prompt at position `i`.
pub open spec fn request_id(i: nat) -> Seq<char> {
    "req-"@ + decimal(i)
}

/// One line of the request file: the prompt at position `i`, sent to the
/// chat endpoint as a single user message.
pub open spec fn request_line(model: Seq<char>, i: nat, prompt: Seq<char>) -> Seq<char> {
    "{\"custom_id\":\""@ + request_id(i)
        + "\",\"method\":\"POST\",\"url\":\"/v1/chat/completions\",\"body\":{\"model\":"@
        + json_quoted(model) + ",\"messages\":[{\"role\":\"user\",\"content\":"@ + json_quoted(
        prompt,
    ) + "}]}}"@
}

pub open spec fn request_lines(model: Seq<char>, prompts: Seq<Seq<char>>) -> Seq<Seq<char>> {
    Seq::new(prompts.len(), |i: int| request_line(model, i as nat, prompts[i]))
}

/// The request file: one line per prompt, in order.
pub open spec fn batch_input(model: Seq<char>, prompts: Seq<Seq<char>>) -> Seq<char> {
    joined(request_lines(model, prompts), "\n"@)
}

/// The JSON string literal for a text.
pub fn quoted(s: &str) -> (r: String)
    ensures
        r@ == json_quoted(s@),
{
    match json_string(s) {
        Ok(q) => q,
        Err(_) => {
            proof {
                assert(false);
            }
            String::new()
        },
    }
}

/// The identifier of the request for the prompt at position `i`.
pub fn request_id_string(i: usize) -> (r: String)
    ensures
        r@ == request_id(i as nat),
{
    let mut out: Vec<char> = Vec::new();
    push_str(&mut out, "req-");
    push_decimal(&mut out, i);
    string_from_chars(&out)
}

/// Builds the request file for `prompts`: line `i` carries identifier
/// `req-i` and prompt `i`.
pub fn build_batch_input(model: &str, prompts: &Vec<String>) -> (r: String)
    ensures
        r@ == batch_input(model@, views(prompts@)),
{
    let ghost ps = views(prompts@);
    let quoted_model = chars_of(quoted(model).as_str());
    let mut out: Vec<char> = Vec::new();
    let mut i: usize = 0;
    assert(request_lines(model@, ps).take(0) =~= Seq::<Seq<char>>::empty());
    while i < prompts.len()
        invariant
            i <= prompts@.len(),
            ps == views(prompts@),
            quoted_model@ == json_quoted(model@),
            out@ == joined(request_lines(model@, ps).take(i as int), "\n"@),
        decreases prompts@.len() - i,
    {
        let quoted_prompt = chars_of(quoted(prompts[i].as_str()).as_str());
        let ghost before = out@;
        if i > 0 {
            push_str(&mut out, "\n");
        }
        let ghost mid = out@;
        push_str(&mut out, "{\"custom_id\":\"");
        push_str(&mut out, "req-");
        push_decimal(&mut out, i);
        push_str(
            &mut out,
            "\",\"method\":\"POST\",\"url\":\"/v1/chat/completions\",\"body\":{\"model\":",
        );
        push_range(&mut out, &quoted_model, 0, quoted_model.len());
        push_str(&mut out, ",\"messages\":[{\"role\":\"user\",\"content\":");
        push_range(&mut out, &quoted_prompt, 0, quoted_prompt.len());
        push_str(&mut out, "}]}}");
        proof {
            assert(quoted_model@.subrange(0, quoted_model@.len() as int) =~= quoted_model@);
            assert(quoted_prompt@.subrange(0, quoted_prompt@.len() as int) =~= quoted_prompt@);
            let line = request_line(model@, i as nat, ps[i as int]);
            assert(out@ =~= mid + line);
            let lines = request_lines(model@, ps).take(i + 1);
            assert(lines.drop_last() =~= request_lines(model@, ps).take(i as int));
            assert(lines.last() == line);
            if i == 0 {
                assert(out@ =~= joined(lines, "\n"@));
            } else {
                assert(mid == before + "\n"@);
                assert(out@ =~= joined(lines, "\n"@));
            }
        }
        i += 1;
    }
    assert(request_lines(model@, ps).take(i as int) =~= request_lines(model@, ps));
    string_from_chars(&out)
}

/// The prompt for a piece of content and an instruction about it.
pub open spec fn content_prompt(content: Seq<char>, prompt: Seq<char>) -> Seq<char> {
    prompt + "\n\nContent:\n"@ + content
}

/// Joins an instruction and the content it is about into one prompt.
pub fn build_content_prompt(content: &str, prompt: &str) -> (r: String)
    ensures
        r@ == content_prompt(content@, prompt@),
{
    let mut out: Vec<char> = Vec::new();
    push_str(&mut out, prompt);
    push_str(&mut out, "\n\nContent:\n");
    push_str(&mut out, content);
    assert(out@ =~= content_prompt(content@, prompt@));
    string_from_chars(&out)
}

/// One line of the result file.
#[derive(Debug, Clone)]
pub struct ResultRecord {
    pub custom_id: String,
    /// The message contents of the response's choices, in order, where the
    /// record carries a response.
    pub response: Option<Vec<String>>,
    /// The message of the record's error, where it carries one.
    pub error: Option<String>,
}

/// The text a record gives its slot: the first choice's message, else the
/// error rendered inline, else nothing.
pub open spec fn record_text(r: ResultRecord) -> Seq<char> {
    match r.response {
        Some(choices) => if choices@.len() > 0 {
            choices@[0]@
        } else {
            Seq::empty()
        },
        None => match r.error {
            Some(m) => "Error: "@ + m@,
            None => Seq::empty(),
        },
    }
}

/// The text of the last record whose identifier is `id`.
pub open spec fn lookup(recs: Seq<ResultRecord>, id: Seq<char>) -> Option<Seq<char>>
    decreases recs.len(),
{
    if recs.len() == 0 {
        None
    } else if recs.last().custom_id@ == id {
        Some(record_text(recs.last()))
    } else {
        lookup(recs.drop_last(), id)
    }
}

/// The texts for requests `k..n`, in order, or the first position among
/// them that has no record.
pub open spec fn ordered_from(recs: Seq<ResultRecord>, k: nat, n: nat) -> Result<
    Seq<Seq<char>>,
    nat,
>
    decreases n - k,
{
    if k >= n {
        Ok(Seq::empty())
    } else {
        match lookup(recs, request_id(k)) {
            None => Err(k),
            Some(t) => match ordered_from(recs, k + 1, n) {
                Ok(rest) => Ok(seq![t] + rest),
                Err(j) => Err(j),
            },
        }
    }
}

/// The texts for requests `0..n`, in order, or the first position that has
/// no record.
pub open spec fn ordered_results(recs: Seq<ResultRecord>, n: nat) -> Result<Seq<Seq<char>>, nat> {
    ordered_from(recs, 0, n)
}

/// The text a record gives its slot.
pub fn record_output(r: &ResultRecord) -> (t: String)
    ensures
        t@ == record_text(*r),
{
    match &r.response {
        Some(choices) => {
            if choices.len() > 0 {
                choices[0].clone()
            } else {
                String::new()
            }
        },
        None => match &r.error {
            Some(m) => {
                let mut out: Vec<char> = Vec::new();
                push_str(&mut out, "Error: ");
                push_str(&mut out, m.as_str());
                string_from_chars(&out)
            },
            None => String::new(),
        },
    }
}

proof fn lemma_request_id_injective(i: nat, j: nat)
    requires
        request_id(i) == request_id(j),
    ensures
        i == j,
{
    reveal_strlit("req-");
    assert(request_id(i).skip(4) =~= decimal(i));
    assert(request_id(j).skip(4) =~= decimal(j));
    lemma_decimal(i);
    lemma_decimal(j);
}

/// The position `i < n` whose request identifier is `id`, if there is one.
pub fn request_index(id: &str, n: usize) -> (r: Option<usize>)
    ensures
        match r {
            Some(i) => i < n && id@ == request_id(i as nat),
            None => forall|i: nat| i < n ==> id@ != #[trigger] request_id(i),
        },
{
    proof {
        reveal_strlit("req-");
    }
    let cs = chars_of(id);
    let prefix = chars_of("req-");
    let len = cs.len();
    if n == 0 || len <= 4 || !matches_at(&cs, &prefix, 0) {
        proof {
            assert forall|i: nat| i < n implies id@ != #[trigger] request_id(i) by {
                if id@ == request_id(i) {
                    lemma_decimal(i);
                    assert(cs@.subrange(0, 4) =~= prefix@);
                }
            }
        }
        return None;
    }
    assert(cs@ =~= "req-"@ + cs@.skip(4));
    let ghost rest = cs@.skip(4);
    assert(cs@.subrange(4, len as int) =~= rest);
    if cs[4] == '0' && len > 5 {
        proof {
            assert forall|i: nat| i < n implies id@ != #[trigger] request_id(i) by {
                if id@ == request_id(i) {
                    lemma_decimal(i);
                    assert(rest =~= decimal(i));
                }
            }
        }
        return None;
    }
    match crate::template::parse_digits(&cs, 4, len, n - 1) {
        Some(v) => {
            proof {
                assert(canonical_digits(rest));
                lemma_canonical_decimal(rest);
            }
            Some(v)
        },
        None => {
            proof {
                assert forall|i: nat| i < n implies id@ != #[trigger] request_id(i) by {
                    if id@ == request_id(i) {
                        lemma_decimal(i);
                        assert(rest =~= decimal(i));
                    }
                }
            }
            None
        },
    }
}

pub open spec fn slot_view(o: Option<String>) -> Option<Seq<char>> {
    match o {
        Some(s) => Some(s@),
        None => None,
    }
}

/// Puts the results back in the order of the prompts: position `i` gets the
/// text of the last record whose identifier is `req-i`; a position with no
/// such record is an error.
pub fn collect_results(records: &Vec<ResultRecord>, expected: usize) -> (r: Result<
    Vec<String>,
    LlmError,
>)
    ensures
        match ordered_results(records@, expected as nat) {
            Ok(texts) => r matches Ok(v) && views(v@) == texts,
            Err(k) => r matches Err(LlmError::ResultNotFound(id)) && id@ == request_id(k),
        },
{
    let mut slots: Vec<Option<String>> = Vec::new();
    let mut k: usize = 0;
    while k < expected
        invariant
            k <= expected,
            slots@.len() == k,
            forall|i: int| 0 <= i < k ==> #[trigger] slots@[i] is None,
        decreases expected - k,
    {
        slots.push(None);
        k += 1;
    }
    let mut j: usize = 0;
    while j < records.len()
        invariant
            j <= records@.len(),
            slots@.len() == expected,
            forall|i: int|
                0 <= i < expected ==> slot_view(#[trigger] slots@[i]) == lookup(
                    records@.take(j as int),
                    request_id(i as nat),
                ),
        decreases records@.len() - j,
    {
        let rec = &records[j];
        let idx = request_index(rec.custom_id.as_str(), expected);
        let ghost before = slots@;
        proof {
            let seen = records@.take(j + 1);
            assert(seen.drop_last() =~= records@.take(j as int));
            assert(seen.last() == records@[j as int]);
        }
        if let Some(i) = idx {
            let t = record_output(rec);
            slots.set(i, Some(t));
            proof {
                assert forall|x: int| 0 <= x < expected implies slot_view(#[trigger] slots@[x])
                    == lookup(records@.take(j + 1), request_id(x as nat)) by {
                    if x != i {
                        if request_id(x as nat) == request_id(i as nat) {
                            lemma_request_id_injective(x as nat, i as nat);
                        }
                        assert(slots@[x] == before[x]);
                    }
                }
            }
        }
        j += 1;
    }
    assert(records@.take(j as int) =~= records@);
    let mut out: Vec<String> = Vec::new();
    let mut k: usize = 0;
    while k < expected
        invariant
            k <= expected,
            slots@.len() == expected,
            forall|i: int|
                0 <= i < expected ==> slot_view(#[trigger] slots@[i]) == lookup(
                    records@,
                    request_id(i as nat),
                ),
            ordered_results(records@, expected as nat) == match ordered_from(
                records@,
                k as nat,
                expected as nat,
            ) {
                Ok(rest) => Ok(views(out@) + rest),
                Err(x) => Err(x),
            },
        decreases expected - k,
    {
        assert(slot_view(slots@[k as int]) == lookup(records@, request_id(k as nat)));
        match &slots[k] {
            Some(t) => {
                let ghost before = views(out@);
                out.push(t.clone());
                proof {
                    assert(views(out@) =~= before.push(t@));
                    match ordered_from(records@, (k + 1) as nat, expected as nat) {
                        Ok(rest) => {
                            assert(before + (seq![t@] + rest) =~= views(out@) + rest);
                        },
                        Err(x) => {},
                    }
                }
            },
            None => {
                return Err(LlmError::ResultNotFound(request_id_string(k)));
            },
        }
        k += 1;
    }
    assert(views(out@) + Seq::<Seq<char>>::empty() =~= views(out@));
    Ok(out)
}

/// What the caller does next in a batch job.
#[derive(Debug)]
pub enum BatchStep {
    /// Upload `content` as a file named `file_name`, for batch use, with a
    /// POST to `path`; hand the file's identifier to `after_upload`.
    Upload { path: String, file_name: String, content: String },
    /// POST the JSON `body` to `path`; hand the job's identifier to
    /// `after_create`.
    Create { path: String, body: String },
    /// Wait `delay_ms` milliseconds, then GET `path`; hand the job's status
    /// to `after_status`.
    Poll { path: String, batch_id: String, delay_ms: u64 },
    /// GET the result file at `path`; hand its records to `after_download`.
    Download { path: String },
    /// The results, in the order of the prompts.
    Done(Vec<String>),
    Failed(LlmError),
}

pub open spec fn create_body(quoted_file_id: Seq<char>) -> Seq<char> {
    "{\"input_file_id\":"@ + quoted_file_id
        + ",\"endpoint\":\"/v1/chat/completions\",\"completion_window\":\"24h\"}"@
}

pub open spec fn job_path(batch_id: Seq<char>) -> Seq<char> {
    "/batches/"@ + batch_id
}

pub open spec fn content_path(file_id: Seq<char>) -> Seq<char> {
    "/files/"@ + file_id + "/content"@
}

/// Milliseconds between two polls of a running job.
pub const POLL_INTERVAL_MS: u64 = 500;

/// The first step of a batch job for `prompts`. No prompt, no call: the
/// result is empty at once.
pub fn start_batch(model: &str, prompts: &Vec<String>) -> (r: BatchStep)
    ensures
        prompts@.len() == 0 ==> (r matches BatchStep::Done(v) && v@.len() == 0),
        prompts@.len() > 0 ==> (r matches BatchStep::Upload { path, file_name, content } && path@
            == "/files"@ && file_name@ == "batch_input.jsonl"@ && content@ == batch_input(
            model@,
            views(prompts@),
        )),
{
    if prompts.len() == 0 {
        return BatchStep::Done(Vec::new());
    }
    BatchStep::Upload {
        path: "/files".to_owned(),
        file_name: "batch_input.jsonl".to_owned(),
        content: build_batch_input(model, prompts),
    }
}

/// The step after the request file was uploaded as `file_id`: create the
/// job over it, for the chat endpoint, within a day.
pub fn after_upload(file_id: &str) -> (r: BatchStep)
    ensures
        r matches BatchStep::Create { path, body } && path@ == "/batches"@ && body@ == create_body(
            json_quoted(file_id@),
        ),
{
    let q = quoted(file_id);
    let mut out: Vec<char> = Vec::new();
    push_str(&mut out, "{\"input_file_id\":");
    push_str(&mut out, q.as_str());
    push_str(&mut out, ",\"endpoint\":\"/v1/chat/completions\",\"completion_window\":\"24h\"}");
    assert(out@ =~= create_body(json_quoted(file_id@)));
    BatchStep::Create { path: "/batches".to_owned(), body: string_from_chars(&out) }
}

fn poll_step(batch_id: &str, delay_ms: u64) -> (r: BatchStep)
    ensures
        r matches BatchStep::Poll { path, batch_id: b, delay_ms: d } && path@ == job_path(
            batch_id@,
        ) && b@ == batch_id@ && d == delay_ms,
{
    let mut out: Vec<char> = Vec::new();
    push_str(&mut out, "/batches/");
    push_str(&mut out, batch_id);
    BatchStep::Poll {
        path: string_from_chars(&out),
        batch_id: batch_id.to_owned(),
        delay_ms,
    }
}

/// The step after the job `batch_id` was created: poll it at once.
pub fn after_create(batch_id: &str) -> (r: BatchStep)
    ensures
        r matches BatchStep::Poll { path, batch_id: b, delay_ms } && path@ == job_path(batch_id@)
            && b@ == batch_id@ && delay_ms == 0,
{
    poll_step(batch_id, 0)
}

/// Whether two texts are the same.
pub fn same_text(a: &str, b: &str) -> (r: bool)
    ensures
        r == (a@ == b@),
{
    let x = chars_of(a);
    let y = chars_of(b);
    if x.len() != y.len() {
        return false;
    }
    let r = matches_at(&x, &y, 0);
    assert(x@.subrange(0, y@.len() as int) =~= x@);
    r
}

/// The step after a poll of job `batch_id` reported `status`: download the
/// output file of a completed job, fail on a job that failed, expired or was
/// cancelled, and poll again after the interval otherwise.
pub fn after_status(batch_id: &str, status: &str, output_file_id: Option<String>) -> (r: BatchStep)
    ensures
        status@ == "completed"@ ==> match output_file_id {
            Some(f) => r matches BatchStep::Download { path } && path@ == content_path(f@),
            None => r matches BatchStep::Failed(LlmError::MissingOutputFile),
        },
        status@ == "failed"@ ==> (r matches BatchStep::Failed(LlmError::BatchFailed(m)) && m@
            == "Batch processing failed"@),
        status@ == "expired"@ ==> r matches BatchStep::Failed(LlmError::BatchExpired),
        status@ == "cancelled"@ ==> r matches BatchStep::Failed(LlmError::BatchCancelled),
        status@ != "completed"@ && status@ != "failed"@ && status@ != "expired"@ && status@
            != "cancelled"@ ==> (r matches BatchStep::Poll { path, batch_id: b, delay_ms }
            && path@ == job_path(batch_id@) && b@ == batch_id@ && delay_ms == POLL_INTERVAL_MS),
{
    proof {
        reveal_strlit("completed");
        reveal_strlit("failed");
        reveal_strlit("expired");
        reveal_strlit("cancelled");
        assert("completed"@[1] != "cancelled"@[1]);
        assert("completed"@ != "cancelled"@);
        assert("completed"@.len() != "failed"@.len());
        assert("completed"@.len() != "expired"@.len());
        assert("failed"@.len() != "expired"@.len());
        assert("failed"@.len() != "cancelled"@.len());
        assert("expired"@.len() != "cancelled"@.len());
    }
    if same_text(status, "completed") {
        match output_file_id {
            Some(f) => {
                let mut out: Vec<char> = Vec::new();
                push_str(&mut out, "/files/");
                push_str(&mut out, f.as_str());
                push_str(&mut out, "/content");
                assert(out@ =~= content_path(f@));
                BatchStep::Download { path: string_from_chars(&out) }
            },
            None => BatchStep::Failed(LlmError::MissingOutputFile),
        }
    } else if same_text(status, "failed") {
        BatchStep::Failed(
            LlmError::BatchFailed("Batch processing failed".to_owned()),
        )
    } else if same_text(status, "expired") {
        BatchStep::Failed(LlmError::BatchExpired)
    } else if same_text(status, "cancelled") {
        BatchStep::Failed(LlmError::BatchCancelled)
    } else {
        poll_step(batch_id, POLL_INTERVAL_MS)
    }
}

/// The last step, once the result file's records are in: the texts in the
/// order of the `expected` prompts.
pub fn after_download(records: &Vec<ResultRecord>, expected: usize) -> (r: BatchStep)
    ensures
        match ordered_results(records@, expected as nat) {
            Ok(texts) => r matches BatchStep::Done(v) && views(v@) == texts,
            Err(k) => r matches BatchStep::Failed(LlmError::ResultNotFound(id)) && id@ == request_id(k),
        },
{
    match collect_results(records, expected) {
        Ok(v) => BatchStep::Done(v),
        Err(e) => BatchStep::Failed(e),
    }
}

/// Whether an HTTP status is a success (200 to 299); any other is an API
/// error carrying the status and the body's message.
pub fn check_status(status: u16, message: String) -> (r: Result<(), LlmError>)
    ensures
        200 <= status <= 299 <==> r is Ok,
        !(200 <= status <= 299) ==> (r matches Err(LlmError::Api { status: s, message: m }) && s
            == status && m@ == message@),
{
    if 200 <= status && status <= 299 {
        Ok(())
    } else {
        Err(LlmError::Api { status, message })
    }
}

/// No two records share an identifier.
pub open spec fn distinct_ids(recs: Seq<ResultRecord>) -> bool {
    forall|i: int, j: int|
        0 <= i < j < recs.len() ==> (#[trigger] recs[i]).custom_id@ != (#[trigger] recs[j]).custom_id@
}

/// `b` holds the records of `a` in another order: `b[k]` is `a[perm[k]]`,
/// and `perm` is a bijection on the positions.
pub open spec fn reordering(a: Seq<ResultRecord>, b: Seq<ResultRecord>, perm: Seq<int>) -> bool {
    &&& a.len() == b.len()
    &&& perm.len() == b.len()
    &&& forall|k: int| 0 <= k < b.len() ==> 0 <= #[trigger] perm[k] < a.len() && b[k] == a[perm[k]]
    &&& forall|k: int, l: int| 0 <= k < l < b.len() ==> #[trigger] perm[k] != #[trigger] perm[l]
    &&& forall|j: int| 0 <= j < a.len() ==> #[trigger] taken(perm, j)
}

/// Some position of `perm` maps to `j`.
pub open spec fn taken(perm: Seq<int>, j: int) -> bool {
    exists|k: int| 0 <= k < perm.len() && #[trigger] perm[k] == j
}

proof fn lemma_lookup_found(recs: Seq<ResultRecord>, id: Seq<char>, k: int)
    requires
        distinct_ids(recs),
        0 <= k < recs.len(),
        recs[k].custom_id@ == id,
    ensures
        lookup(recs, id) == Some(record_text(recs[k])),
    decreases recs.len(),
{
    if k < recs.len() - 1 {
        let p = recs.drop_last();
        assert(recs.last() == recs[recs.len() - 1]);
        assert(distinct_ids(p)) by {
            assert forall|i: int, j: int| 0 <= i < j < p.len() implies (#[trigger] p[i]).custom_id@
                != (#[trigger] p[j]).custom_id@ by {
                assert(p[i] == recs[i] && p[j] == recs[j]);
            }
        }
        assert(p[k] == recs[k]);
        lemma_lookup_found(p, id, k);
    }
}

proof fn lemma_lookup_absent(recs: Seq<ResultRecord>, id: Seq<char>)
    requires
        forall|k: int| 0 <= k < recs.len() ==> (#[trigger] recs[k]).custom_id@ != id,
    ensures
        lookup(recs, id) is None,
    decreases recs.len(),
{
    if recs.len() > 0 {
        let p = recs.drop_last();
        assert(recs.last() == recs[recs.len() - 1]);
        assert forall|k: int| 0 <= k < p.len() implies (#[trigger] p[k]).custom_id@ != id by {
            assert(p[k] == recs[k]);
        }
        lemma_lookup_absent(p, id);
    }
}

proof fn lemma_lookup_reordered(a: Seq<ResultRecord>, b: Seq<ResultRecord>, perm: Seq<int>, id: Seq<char>)
    requires
        distinct_ids(a),
        reordering(a, b, perm),
    ensures
        lookup(a, id) == lookup(b, id),
{
    assert(distinct_ids(b)) by {
        assert forall|i: int, j: int| 0 <= i < j < b.len() implies (#[trigger] b[i]).custom_id@
            != (#[trigger] b[j]).custom_id@ by {
            let pi = perm[i];
            let pj = perm[j];
            assert(b[i] == a[pi] && b[j] == a[pj]);
            if pi < pj {
                assert(a[pi].custom_id@ != a[pj].custom_id@);
            } else if pj < pi {
                assert(a[pj].custom_id@ != a[pi].custom_id@);
            }
        }
    }
    if exists|k: int| 0 <= k < b.len() && (#[trigger] b[k]).custom_id@ == id {
        let k = choose|k: int| 0 <= k < b.len() && (#[trigger] b[k]).custom_id@ == id;
        assert(b[k] == a[perm[k]]);
        lemma_lookup_found(b, id, k);
        lemma_lookup_found(a, id, perm[k]);
    } else {
        lemma_lookup_absent(b, id);
        assert forall|j: int| 0 <= j < a.len() implies (#[trigger] a[j]).custom_id@ != id by {
            assert(taken(perm, j));
            let k = choose|k: int| 0 <= k < perm.len() && #[trigger] perm[k] == j;
            assert(b[k] == a[j]);
        }
        lemma_lookup_absent(a, id);
    }
}

proof fn lemma_ordered_reordered(a: Seq<ResultRecord>, b: Seq<ResultRecord>, perm: Seq<int>, k: nat, n: nat)
    requires
        distinct_ids(a),
        reordering(a, b, perm),
    ensures
        ordered_from(a, k, n) == ordered_from(b, k, n),
    decreases n - k,
{
    if k < n {
        lemma_lookup_reordered(a, b, perm, request_id(k));
        lemma_ordered_reordered(a, b, perm, k + 1, n);
    }
}

/// The results do not depend on the order in which the service wrote its
/// records: where every identifier occurs once, any reordering of the
/// records gives the same texts at the same positions, or the same missing
/// position.
pub proof fn lemma_results_ignore_record_order(
    a: Seq<ResultRecord>,
    b: Seq<ResultRecord>,
    perm: Seq<int>,
    n: nat,
)
    requires
        distinct_ids(a),
        reordering(a, b, perm),
    ensures
        ordered_results(a, n) == ordered_results(b, n),
{
    lemma_ordered_reordered(a, b, perm, 0, n);
}

/// Where every request `0..n` has a record, the results are `n` texts, and
/// the one at position `i` is the text of the record for request `req-i`.
pub proof fn lemma_results_match_requests(recs: Seq<ResultRecord>, n: nat, k: nat)
    requires
        k <= n,
        forall|i: nat| k <= i < n ==> #[trigger] lookup(recs, request_id(i)) is Some,
    ensures
        ordered_from(recs, k, n) matches Ok(texts) && texts.len() == n - k && forall|i: nat|
            k <= i < n ==> Some(#[trigger] texts[i - k]) == lookup(recs, request_id(i)),
    decreases n - k,
{
    if k < n {
        lemma_results_match_requests(recs, n, k + 1);
        assert(lookup(recs, request_id(k)) is Some);
        let rest = ordered_from(recs, k + 1, n)->Ok_0;
        let texts = ordered_from(recs, k, n)->Ok_0;
        assert forall|i: nat| k <= i < n implies Some(#[trigger] texts[i - k]) == lookup(
            recs,
            request_id(i),
        ) by {
            if i > k {
                assert(texts[i - k] == rest[i - (k + 1)]);
            }
        }
    }
}

/// Some record carries the identifier `id`.
pub open spec fn answered(recs: Seq<ResultRecord>, id: Seq<char>) -> bool {
    exists|k: int| 0 <= k < recs.len() && (#[trigger] recs[k]).custom_id@ == id
}

/// `t` is the text of a record that carries the identifier `id`.
pub open spec fn answers(recs: Seq<ResultRecord>, id: Seq<char>, t: Seq<char>) -> bool {
    exists|k: int| 0 <= k < recs.len() && recs[k].custom_id@ == id && t == record_text(#[trigger] recs[k])
}

/// The results answer the prompts in order, whatever order the service
/// listed its records in: where every identifier occurs once and every
/// request `0..n` has a record, any reordering `b` of the records gives `n`
/// texts, the one at position `i` being the text of the record for `req-i`.
pub proof fn lemma_results_in_prompt_order(
    a: Seq<ResultRecord>,
    b: Seq<ResultRecord>,
    perm: Seq<int>,
    n: nat,
)
    requires
        distinct_ids(a),
        reordering(a, b, perm),
        forall|i: nat| i < n ==> #[trigger] answered(a, request_id(i)),
    ensures
        ordered_results(b, n) matches Ok(texts) && texts.len() == n && forall|i: nat|
            i < n ==> #[trigger] answers(a, request_id(i), texts[i as int]),
{
    assert forall|i: nat| i < n implies #[trigger] lookup(b, request_id(i)) is Some by {
        assert(answered(a, request_id(i)));
        let k = choose|k: int| 0 <= k < a.len() && (#[trigger] a[k]).custom_id@ == request_id(i);
        lemma_lookup_found(a, request_id(i), k);
        lemma_lookup_reordered(a, b, perm, request_id(i));
    }
    lemma_results_match_requests(b, n, 0);
    lemma_results_ignore_record_order(a, b, perm, n);
    assert(ordered_results(b, n) is Ok);
    let texts = ordered_results(b, n)->Ok_0;
    assert(texts.len() == n);
    assert forall|i: nat| i < n implies #[trigger] answers(a, request_id(i), texts[i as int]) by {
        assert(answered(a, request_id(i)));
        let k = choose|k: int| 0 <= k < a.len() && (#[trigger] a[k]).custom_id@ == request_id(i);
        lemma_lookup_found(a, request_id(i), k);
        lemma_lookup_reordered(a, b, perm, request_id(i));
        assert(Some(texts[i - 0]) == lookup(b, request_id(i)));
        assert(a[k].custom_id@ == request_id(i) && texts[i as int] == record_text(a[k]));
    }
}

/// No character of `s` is a line feed.
pub open spec fn no_newline(s: Seq<char>) -> bool {
    forall|i: int| 0 <= i < s.len() ==> s[i] != '\n'
}

proof fn lemma_concat_no_newline(a: Seq<char>, b: Seq<char>)
    requires
        no_newline(a),
        no_newline(b),
    ensures
        no_newline(a + b),
{
    assert forall|i: int| 0 <= i < (a + b).len() implies (a + b)[i] != '\n' by {
        if i < a.len() {
            assert((a + b)[i] == a[i]);
        } else {
            assert((a + b)[i] == b[i - a.len()]);
        }
    }
}

proof fn lemma_escaped_no_newline(s: Seq<char>)
    ensures
        no_newline(json_escaped(s)),
    decreases s.len(),
{
    if s.len() > 0 {
        lemma_escaped_no_newline(s.drop_last());
        let c = s.last();
        let u = c as u32;
        if u < 0x20 {
            assert(u / 16 < 2 && u % 16 < 16);
        }
        assert(no_newline(json_escape(c)));
        lemma_concat_no_newline(json_escaped(s.drop_last()), json_escape(c));
    }
}

proof fn lemma_request_line_no_newline(model: Seq<char>, i: nat, prompt: Seq<char>)
    ensures
        no_newline(request_line(model, i, prompt)),
{
    reveal_strlit("req-");
    reveal_strlit("{\"custom_id\":\"");
    reveal_strlit("\",\"method\":\"POST\",\"url\":\"/v1/chat/completions\",\"body\":{\"model\":");
    reveal_strlit(",\"messages\":[{\"role\":\"user\",\"content\":");
    reveal_strlit("}]}}");
    lemma_decimal(i);
    let d = decimal(i);
    assert(no_newline(d)) by {
        assert forall|k: int| 0 <= k < d.len() implies d[k] != '\n' by {
            assert(crate::text::is_digit(d[k]));
        }
    }
    lemma_escaped_no_newline(model);
    lemma_escaped_no_newline(prompt);
    lemma_concat_no_newline(seq!['"'], json_escaped(model));
    lemma_concat_no_newline(seq!['"'] + json_escaped(model), seq!['"']);
    lemma_concat_no_newline(seq!['"'], json_escaped(prompt));
    lemma_concat_no_newline(seq!['"'] + json_escaped(prompt), seq!['"']);
    lemma_concat_no_newline("req-"@, d);
    let p1 = "{\"custom_id\":\""@;
    let p2 = "\",\"method\":\"POST\",\"url\":\"/v1/chat/completions\",\"body\":{\"model\":"@;
    let p3 = ",\"messages\":[{\"role\":\"user\",\"content\":"@;
    let p4 = "}]}}"@;
    assert(no_newline(p1) && no_newline(p2) && no_newline(p3) && no_newline(p4));
    lemma_concat_no_newline(p1, request_id(i));
    lemma_concat_no_newline(p1 + request_id(i), p2);
    lemma_concat_no_newline(p1 + request_id(i) + p2, json_quoted(model));
    lemma_concat_no_newline(p1 + request_id(i) + p2 + json_quoted(model), p3);
    lemma_concat_no_newline(p1 + request_id(i) + p2 + json_quoted(model) + p3, json_quoted(prompt));
    lemma_concat_no_newline(p1 + request_id(i) + p2 + json_quoted(model) + p3 + json_quoted(prompt), p4);
}

proof fn lemma_joined_front(lines: Seq<Seq<char>>, sep: Seq<char>)
    requires
        lines.len() >= 2,
    ensures
        joined(lines, sep) == lines[0] + sep + joined(lines.drop_first(), sep),
    decreases lines.len(),
{
    let rest = lines.drop_first();
    if lines.len() == 2 {
        assert(lines.drop_last().len() == 1);
        assert(rest.len() == 1);
        assert(joined(lines.drop_last(), sep) == lines[0]);
        assert(joined(rest, sep) == lines[1]);
    } else {
        lemma_joined_front(lines.drop_last(), sep);
        assert(lines.drop_last().drop_first() =~= rest.drop_last());
        assert(rest.last() == lines.last());
        assert(joined(lines, sep) =~= lines[0] + sep + joined(rest, sep));
    }
}

proof fn lemma_skip_line(s: Seq<char>, start: int, i: int, end: int)
    requires
        0 <= start <= i <= end <= s.len(),
        forall|j: int| i <= j < end ==> s[j] != '\n',
    ensures
        split_from(s, "\n"@, start, i) == split_from(s, "\n"@, start, end),
    decreases end - i,
{
    reveal_strlit("\n");
    if i < end {
        if occurs_at(s, "\n"@, i) {
            assert(s.subrange(i, i + 1)[0] == s[i]);
        }
        lemma_skip_line(s, start, i + 1, end);
    }
}

proof fn lemma_split_joined(s: Seq<char>, start: int, lines: Seq<Seq<char>>)
    requires
        0 <= start <= s.len(),
        lines.len() >= 1,
        s.subrange(start, s.len() as int) == joined(lines, "\n"@),
        forall|k: int| 0 <= k < lines.len() ==> no_newline(#[trigger] lines[k]),
    ensures
        split_from(s, "\n"@, start, start) == lines,
    decreases lines.len(),
{
    reveal_strlit("\n");
    let first = lines[0];
    let end = start + first.len();
    assert(no_newline(first));
    if lines.len() == 1 {
        assert(s.subrange(start, s.len() as int) == first);
        assert forall|j: int| start <= j < end implies s[j] != '\n' by {
            assert(s[j] == first[j - start]);
        }
        lemma_skip_line(s, start, start, end);
        assert(split_from(s, "\n"@, start, end) == seq![s.subrange(start, s.len() as int)]);
        assert(lines =~= seq![first]);
    } else {
        let rest = lines.drop_first();
        lemma_joined_front(lines, "\n"@);
        let tail = s.subrange(start, s.len() as int);
        let jr = joined(rest, "\n"@);
        assert(tail == first + "\n"@ + jr);
        assert("\n"@.len() == 1);
        assert(tail.len() == first.len() + 1 + jr.len());
        assert(end + 1 <= s.len());
        assert forall|j: int| start <= j < end implies s[j] != '\n' by {
            assert(s[j] == tail[j - start]);
        }
        lemma_skip_line(s, start, start, end);
        assert(s[end] == tail[end - start]);
        assert(s.subrange(end, end + 1) =~= "\n"@);
        assert(occurs_at(s, "\n"@, end));
        assert(s.subrange(start, end) =~= first);
        assert forall|k: int| 0 <= k < jr.len() implies s.subrange(end + 1, s.len() as int)[k]
            == jr[k] by {
            assert(s[end + 1 + k] == tail[first.len() + 1 + k]);
            assert(tail[first.len() + 1 + k] == (first + "\n"@ + jr)[first.len() + 1 + k]);
        }
        assert(s.subrange(end + 1, s.len() as int) =~= jr);
        assert forall|k: int| 0 <= k < rest.len() implies no_newline(#[trigger] rest[k]) by {
            assert(rest[k] == lines[k + 1]);
        }
        lemma_split_joined(s, end + 1, rest);
        assert(lines =~= seq![first] + rest);
    }
}

/// The request file holds one line per prompt: cut at its line feeds, it
/// gives back exactly the request lines, line `i` carrying identifier
/// `req-i` and prompt `i` (no escaped text holds a line feed).
pub proof fn lemma_request_file_lines(model: Seq<char>, prompts: Seq<Seq<char>>)
    requires
        prompts.len() >= 1,
    ensures
        split_on(batch_input(model, prompts), "\n"@) == request_lines(model, prompts),
{
    let lines = request_lines(model, prompts);
    let s = batch_input(model, prompts);
    assert forall|k: int| 0 <= k < lines.len() implies no_newline(#[trigger] lines[k]) by {
        lemma_request_line_no_newline(model, k as nat, prompts[k]);
    }
    assert(s.subrange(0, s.len() as int) =~= s);
    lemma_split_joined(s, 0, lines);
}

} // verus!
